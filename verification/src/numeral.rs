use vstd::prelude::*;

verus! {

/// The character for a single decimal digit value.
pub open spec fn digit_char(d: int) -> char {
    if d == 0 {
        '0'
    } else if d == 1 {
        '1'
    } else if d == 2 {
        '2'
    } else if d == 3 {
        '3'
    } else if d == 4 {
        '4'
    } else if d == 5 {
        '5'
    } else if d == 6 {
        '6'
    } else if d == 7 {
        '7'
    } else if d == 8 {
        '8'
    } else {
        '9'
    }
}

pub open spec fn is_digit(c: char) -> bool {
    48 <= c as int && c as int <= 57
}

pub open spec fn digit_val(c: char) -> int {
    c as int - 48
}

/// The canonical decimal numeral of a natural number: most significant
/// digit first, no leading zeros (`0` itself is the single digit `0`).
pub open spec fn dec_digits(n: nat) -> Seq<char>
    decreases n,
{
    if n < 10 {
        seq![digit_char(n as int)]
    } else {
        dec_digits(n / 10) + seq![digit_char((n % 10) as int)]
    }
}

/// The numeric value denoted by a sequence of decimal digit characters.
pub open spec fn val_of(s: Seq<char>) -> int
    decreases s.len(),
{
    if s.len() == 0 {
        0
    } else {
        val_of(s.drop_last()) * 10 + digit_val(s.last())
    }
}

pub open spec fn all_digits(s: Seq<char>) -> bool {
    forall|i: int| 0 <= i < s.len() ==> is_digit(#[trigger] s[i])
}

pub proof fn lemma_dec_digits_shape(n: nat)
    ensures
        dec_digits(n).len() >= 1,
        all_digits(dec_digits(n)),
        n > 0 ==> dec_digits(n)[0] != '0',
        n == 0 ==> dec_digits(n) == seq!['0'],
        n < 10 ==> dec_digits(n).len() == 1,
    decreases n,
{
    if n < 10 {
        assert(dec_digits(n) == seq![digit_char(n as int)]);
        assert(is_digit(digit_char(n as int)));
        assert(all_digits(dec_digits(n)));
    } else {
        lemma_dec_digits_shape(n / 10);
        let rest = dec_digits(n / 10);
        let whole = rest + seq![digit_char((n % 10) as int)];
        assert(n / 10 > 0);
        assert(whole[0] == rest[0]);
        assert(is_digit(digit_char((n % 10) as int)));
        assert forall|i: int| 0 <= i < whole.len() implies is_digit(#[trigger] whole[i]) by {
            if i < rest.len() {
                assert(whole[i] == rest[i]);
            }
        }
    }
}

/// Reading back the canonical numeral of `n` yields `n`.
pub proof fn lemma_val_of_dec_digits(n: nat)
    ensures
        val_of(dec_digits(n)) == n,
    decreases n,
{
    if n < 10 {
        let s = dec_digits(n);
        assert(s.drop_last() =~= Seq::<char>::empty());
        assert(val_of(Seq::<char>::empty()) == 0);
        assert(s.last() == digit_char(n as int));
        assert(val_of(s) == val_of(s.drop_last()) * 10 + digit_val(s.last()));
        assert(digit_val(digit_char(n as int)) == n);
    } else {
        lemma_val_of_dec_digits(n / 10);
        let rest = dec_digits(n / 10);
        let d = digit_char((n % 10) as int);
        let whole = rest + seq![d];
        assert(whole.drop_last() =~= rest);
        assert(whole.last() == d);
        assert(0 <= n % 10 < 10);
        assert(digit_val(d) == n % 10);
        assert(val_of(whole) == (n / 10) * 10 + n % 10);
        assert((n / 10) * 10 + n % 10 == n) by {
            vstd::arithmetic::div_mod::lemma_fundamental_div_mod(n as int, 10);
        }
    }
}

pub proof fn lemma_val_of_nonneg(s: Seq<char>)
    requires
        all_digits(s),
    ensures
        val_of(s) >= 0,
    decreases s.len(),
{
    if s.len() > 0 {
        assert(all_digits(s.drop_last())) by {
            assert(forall|i: int|
                0 <= i < s.drop_last().len() ==> s.drop_last()[i] == #[trigger] s[i]);
        }
        lemma_val_of_nonneg(s.drop_last());
        assert(is_digit(s.last())) by {
            assert(s.last() == s[s.len() - 1]);
        }
    }
}

/// A nonempty digit string without a leading zero is the canonical numeral
/// of its own value.
pub proof fn lemma_canonical_digits(s: Seq<char>)
    requires
        all_digits(s),
        s.len() >= 1,
        s.len() > 1 ==> s[0] != '0',
    ensures
        val_of(s) >= 0,
        dec_digits(val_of(s) as nat) == s,
    decreases s.len(),
{
    lemma_val_of_nonneg(s);
    let last = s.last();
    assert(is_digit(last)) by {
        assert(last == s[s.len() - 1]);
    }
    if s.len() == 1 {
        assert(s.drop_last() =~= Seq::<char>::empty());
        assert(val_of(Seq::<char>::empty()) == 0);
        assert(val_of(s) == val_of(s.drop_last()) * 10 + digit_val(s.last()));
        assert(val_of(s) == digit_val(last));
        assert(0 <= val_of(s) < 10);
        assert(digit_char(digit_val(last)) == last);
        assert(dec_digits(val_of(s) as nat) =~= s);
    } else {
        let rest = s.drop_last();
        assert(all_digits(rest)) by {
            assert(forall|i: int| 0 <= i < rest.len() ==> rest[i] == #[trigger] s[i]);
        }
        assert(rest[0] == s[0]);
        lemma_canonical_digits(rest);
        let v = val_of(rest);
        // `rest` has no leading zero, so its value is at least 1: were it 0,
        // its canonical numeral would be the single digit `0`.
        if v == 0 {
            assert(dec_digits(0nat) == seq!['0']) by {
                lemma_dec_digits_shape(0nat);
            }
            assert(rest[0] == '0');
            assert(false);
        }
        let n = val_of(s);
        assert(n == v * 10 + digit_val(last));
        assert(0 <= digit_val(last) < 10);
        assert(v >= 1);
        assert(n >= 10);
        assert(n / 10 == v && n % 10 == digit_val(last)) by {
            vstd::arithmetic::div_mod::lemma_fundamental_div_mod_converse(
                n as int,
                10,
                v,
                digit_val(last),
            );
        }
        assert(digit_char(digit_val(last)) == last);
        assert(dec_digits(n as nat) == dec_digits(v as nat) + seq![last]);
        assert(dec_digits(n as nat) =~= s);
    }
}

/// Appending digits never decreases the denoted value.
pub proof fn lemma_val_of_take_le(s: Seq<char>, k: int)
    requires
        all_digits(s),
        0 <= k <= s.len(),
    ensures
        val_of(s.take(k)) <= val_of(s),
    decreases s.len() - k,
{
    if k < s.len() {
        lemma_val_of_take_le(s, k + 1);
        let t = s.take(k + 1);
        assert(t.drop_last() =~= s.take(k));
        assert(t.last() == s[k]);
        assert(all_digits(s.take(k))) by {
            assert(forall|i: int| 0 <= i < k ==> s.take(k)[i] == #[trigger] s[i]);
        }
        lemma_val_of_nonneg(s.take(k));
        assert(is_digit(s[k]));
        assert(val_of(t) == val_of(s.take(k)) * 10 + digit_val(s[k]));
        assert(val_of(s.take(k)) <= val_of(t));
    } else {
        assert(s.take(k) =~= s);
    }
}

/// The string for one decimal digit value.
fn digit_str(d: u32) -> (r: &'static str)
    requires
        d < 10,
    ensures
        r@ == seq![digit_char(d as int)],
{
    proof {
        reveal_strlit("0");
        reveal_strlit("1");
        reveal_strlit("2");
        reveal_strlit("3");
        reveal_strlit("4");
        reveal_strlit("5");
        reveal_strlit("6");
        reveal_strlit("7");
        reveal_strlit("8");
        reveal_strlit("9");
    }
    match d {
        0 => "0",
        1 => "1",
        2 => "2",
        3 => "3",
        4 => "4",
        5 => "5",
        6 => "6",
        7 => "7",
        8 => "8",
        _ => "9",
    }
}

/// Appends the canonical decimal numeral of `n` to `out`.
pub fn append_u32(out: &mut String, n: u32)
    ensures
        final(out)@ == old(out)@ + dec_digits(n as nat),
    decreases n,
{
    if n < 10 {
        out.append(digit_str(n));
    } else {
        append_u32(out, n / 10);
        out.append(digit_str(n % 10));
        proof {
            assert(out@ =~= old(out)@ + dec_digits(n as nat));
        }
    }
}

} // verus!
