use vstd::prelude::*;

use crate::numeral::all_digits;
use crate::numeral::append_u32;
use crate::numeral::dec_digits;
use crate::numeral::digit_val;
use crate::numeral::is_digit;
use crate::numeral::lemma_canonical_digits;
use crate::numeral::lemma_dec_digits_shape;
use crate::numeral::lemma_val_of_dec_digits;
use crate::numeral::lemma_val_of_nonneg;
use crate::numeral::lemma_val_of_take_le;
use crate::numeral::val_of;
use crate::stats::Statistics;

verus! {

/// The end of the run of digit characters that starts at `i`.
pub open spec fn run_end(s: Seq<char>, i: int) -> int
    decreases s.len() - i
        when 0 <= i <= s.len()
{
    if i >= s.len() || !is_digit(s[i]) {
        i
    } else {
        run_end(s, i + 1)
    }
}

pub proof fn lemma_run_end_props(s: Seq<char>, i: int)
    requires
        0 <= i <= s.len(),
    ensures
        i <= run_end(s, i) <= s.len(),
        all_digits(s.subrange(i, run_end(s, i))),
        run_end(s, i) == s.len() || !is_digit(s[run_end(s, i)]),
    decreases s.len() - i,
{
    if i >= s.len() || !is_digit(s[i]) {
        assert(s.subrange(i, i) =~= Seq::<char>::empty());
    } else {
        lemma_run_end_props(s, i + 1);
        let e = run_end(s, i);
        assert(e == run_end(s, i + 1));
        let inner = s.subrange(i + 1, e);
        let outer = s.subrange(i, e);
        assert forall|k: int| 0 <= k < outer.len() implies is_digit(#[trigger] outer[k]) by {
            if k == 0 {
                assert(outer[0] == s[i]);
            } else {
                assert(outer[k] == inner[k - 1]);
            }
        }
    }
}

/// A run of digits bounded by the end of the string or a non-digit is
/// exactly the digit run.
pub proof fn lemma_run_end_of_digits(s: Seq<char>, i: int, j: int)
    requires
        0 <= i <= j <= s.len(),
        forall|k: int| i <= k < j ==> is_digit(#[trigger] s[k]),
        j == s.len() || !is_digit(s[j]),
    ensures
        run_end(s, i) == j,
    decreases j - i,
{
    if i < j {
        assert(is_digit(s[i]));
        lemma_run_end_of_digits(s, i + 1, j);
    }
}

/// What reading an unsigned decimal numeral at position `start` yields: the
/// value and end of the digit run, unless the run is empty, has a superfluous
/// leading zero, or denotes a value beyond `u32::MAX`.
pub open spec fn u32_parse(s: Seq<char>, start: int) -> Option<(int, int)> {
    let e = run_end(s, start);
    let run = s.subrange(start, e);
    if run.len() == 0 || (run.len() > 1 && run[0] == '0') || val_of(run) > u32::MAX {
        None
    } else {
        Some((val_of(run), e))
    }
}

/// A successful unsigned read consumes exactly the canonical numeral of the
/// value it returns.
pub proof fn lemma_u32_parse_sound(s: Seq<char>, start: int)
    requires
        0 <= start <= s.len(),
        u32_parse(s, start) is Some,
    ensures
        ({
            let (v, e) = u32_parse(s, start)->Some_0;
            &&& start < e <= s.len()
            &&& 0 <= v <= u32::MAX
            &&& s.subrange(start, e) == dec_digits(v as nat)
            &&& e == s.len() || !is_digit(s[e])
        }),
{
    lemma_run_end_props(s, start);
    let e = run_end(s, start);
    let run = s.subrange(start, e);
    lemma_val_of_nonneg(run);
    lemma_canonical_digits(run);
}

/// The canonical numeral of a value within `u32` range, bounded by the end
/// of the string or a non-digit, reads back as exactly that value.
pub proof fn lemma_u32_parse_complete(s: Seq<char>, start: int, v: nat)
    requires
        0 <= start,
        start + dec_digits(v).len() <= s.len(),
        s.subrange(start, start + dec_digits(v).len()) == dec_digits(v),
        start + dec_digits(v).len() == s.len() || !is_digit(
            s[start + dec_digits(v).len()],
        ),
        v <= u32::MAX,
    ensures
        u32_parse(s, start) == Some((v as int, start + dec_digits(v).len())),
{
    let d = dec_digits(v);
    lemma_dec_digits_shape(v);
    lemma_val_of_dec_digits(v);
    let j = start + d.len();
    assert forall|k: int| start <= k < j implies is_digit(#[trigger] s[k]) by {
        assert(s[k] == d[k - start]);
    }
    lemma_run_end_of_digits(s, start, j);
    assert(s.subrange(start, j) == d);
    if d.len() > 1 {
        assert(d[0] != '0') by {
            if v == 0 {
                assert(d.len() == 1);
            }
        }
    }
}

/// Reads an unsigned decimal numeral at position `start`.
pub fn parse_u32_at(s: &str, start: usize) -> (r: Option<(u32, usize)>)
    requires
        start <= s@.len(),
    ensures
        u32_parse(s@, start as int) is None ==> r is None,
        u32_parse(s@, start as int) matches Some(p) ==> (r matches Some(q) && q.0 == p.0 && q.1
            == p.1),
        r matches Some(q) ==> start < q.1 <= s@.len(),
{
    let n = s.unicode_len();
    proof {
        lemma_run_end_props(s@, start as int);
    }
    let ghost e = run_end(s@, start as int);
    let ghost run = s@.subrange(start as int, e);
    let mut j: usize = start;
    let mut val: u64 = 0;
    while j < n && digit_at(s, j)
        invariant
            start <= j <= n,
            n == s@.len(),
            e == run_end(s@, start as int),
            start <= e <= n,
            run == s@.subrange(start as int, e),
            run.len() == e - start,
            all_digits(run),
            j <= e,
            run_end(s@, j as int) == e,
            s@.subrange(start as int, j as int) == run.take(j as int - start as int),
            val as int == val_of(run.take(j as int - start as int)),
            val <= u32::MAX,
        decreases n - j,
    {
        let c = s.get_char(j);
        let d = (c as u32) - 48;
        proof {
            assert(is_digit(s@[j as int]));
            assert(j < e) by {
                if j == e {
                    lemma_run_end_props(s@, j as int + 1);
                    assert(run_end(s@, j as int) == run_end(s@, j as int + 1));
                    assert(run_end(s@, j as int + 1) >= j as int + 1);
                }
            }
            let p = run.take(j as int - start as int);
            let q = run.take(j as int + 1 - start as int);
            assert(q.drop_last() =~= p);
            assert(q.last() == run[j as int - start as int]);
            assert(run[j as int - start as int] == s@[j as int]);
            assert(val_of(q) == val_of(p) * 10 + digit_val(c));
        }
        let nv: u64 = val * 10 + (d as u64);
        if nv > 0xffff_ffffu64 {
            proof {
                lemma_run_end_props(s@, start as int);
                lemma_val_of_take_le(run, j as int + 1 - start as int);
                assert(val_of(run) >= val_of(run.take(j as int + 1 - start as int)));
                assert(val_of(run) > u32::MAX);
            }
            return None;
        }
        val = nv;
        j = j + 1;
        proof {
            assert(run_end(s@, j as int - 1) == run_end(s@, j as int));
            assert(s@.subrange(start as int, j as int) =~= run.take(j as int - start as int));
        }
    }
    proof {
        assert(run_end(s@, j as int) == j as int) by {
            if j < n {
                assert(!is_digit(s@[j as int]));
            }
        }
        assert(e == j as int);
        assert(run.take(j as int - start as int) =~= run);
    }
    if j == start {
        return None;
    }
    if j - start > 1 && s.get_char(start) == '0' {
        proof {
            assert(run[0] == s@[start as int]);
        }
        return None;
    }
    proof {
        assert(run[0] == s@[start as int]);
        assert(!(run.len() > 1 && run[0] == '0'));
    }
    Some((val as u32, j))
}

/// Whether the character at `j` is a decimal digit.
fn digit_at(s: &str, j: usize) -> (r: bool)
    requires
        j < s@.len(),
    ensures
        r == is_digit(s@[j as int]),
{
    let code = s.get_char(j) as u32;
    48 <= code && code <= 57
}

/// The canonical decimal numeral of a signed value: a `-` sign before the
/// magnitude for negative values, no sign otherwise.
pub open spec fn dec_i32(v: int) -> Seq<char> {
    if v < 0 {
        seq!['-'] + dec_digits((-v) as nat)
    } else {
        dec_digits(v as nat)
    }
}

/// What reading a signed decimal numeral at position `start` yields: the
/// value and end position, unless the digits are missing or not canonical or
/// the value falls outside `i32` range (`-0` is not canonical).
pub open spec fn i32_parse(s: Seq<char>, start: int) -> Option<(int, int)> {
    if start < s.len() && s[start] == '-' {
        match u32_parse(s, start + 1) {
            Some(p) => if 1 <= p.0 <= 0x8000_0000 {
                Some((-p.0, p.1))
            } else {
                None
            },
            None => None,
        }
    } else {
        match u32_parse(s, start) {
            Some(p) => if p.0 <= 0x7fff_ffff {
                Some((p.0, p.1))
            } else {
                None
            },
            None => None,
        }
    }
}

/// A successful signed read consumes exactly the canonical numeral of the
/// value it returns.
pub proof fn lemma_i32_parse_sound(s: Seq<char>, start: int)
    requires
        0 <= start <= s.len(),
        i32_parse(s, start) is Some,
    ensures
        ({
            let (v, e) = i32_parse(s, start)->Some_0;
            &&& start < e <= s.len()
            &&& i32::MIN <= v <= i32::MAX
            &&& s.subrange(start, e) == dec_i32(v)
            &&& e == s.len() || !is_digit(s[e])
        }),
{
    if start < s.len() && s[start] == '-' {
        lemma_u32_parse_sound(s, start + 1);
        let (m, e) = u32_parse(s, start + 1)->Some_0;
        assert(s.subrange(start, e) =~= seq!['-'] + s.subrange(start + 1, e));
        assert(dec_i32(-m) == seq!['-'] + dec_digits(m as nat));
    } else {
        lemma_u32_parse_sound(s, start);
    }
}

/// The canonical numeral of a value within `i32` range, bounded by the end
/// of the string or a non-digit, reads back as exactly that value.
pub proof fn lemma_i32_parse_complete(s: Seq<char>, start: int, v: int)
    requires
        0 <= start,
        start + dec_i32(v).len() <= s.len(),
        s.subrange(start, start + dec_i32(v).len()) == dec_i32(v),
        start + dec_i32(v).len() == s.len() || !is_digit(s[start + dec_i32(v).len()]),
        i32::MIN <= v <= i32::MAX,
    ensures
        i32_parse(s, start) == Some((v, start + dec_i32(v).len())),
{
    let d = dec_i32(v);
    if v < 0 {
        let mag = (-v) as nat;
        let md = dec_digits(mag);
        assert(d == seq!['-'] + md);
        assert(s[start] == d[0]);
        assert(d[0] == '-');
        assert(s.subrange(start + 1, start + d.len()) =~= md) by {
            assert(forall|k: int|
                0 <= k < md.len() ==> s.subrange(start, start + d.len() as int)[k + 1] == #[trigger] md[
                k]);
        }
        lemma_u32_parse_complete(s, start + 1, mag);
        assert(1 <= mag <= 0x8000_0000);
    } else {
        assert(d == dec_digits(v as nat));
        lemma_dec_digits_shape(v as nat);
        assert(s[start] == d[0]);
        assert(is_digit(d[0]));
        assert(s[start] != '-');
        lemma_u32_parse_complete(s, start, v as nat);
    }
}

/// Reads a signed decimal numeral at position `start`.
pub fn parse_i32_at(s: &str, start: usize) -> (r: Option<(i32, usize)>)
    requires
        start <= s@.len(),
    ensures
        i32_parse(s@, start as int) is None ==> r is None,
        i32_parse(s@, start as int) matches Some(p) ==> (r matches Some(q) && q.0 == p.0 && q.1
            == p.1),
        r matches Some(q) ==> start < q.1 <= s@.len(),
{
    let n = s.unicode_len();
    if start < n && s.get_char(start) == '-' {
        match parse_u32_at(s, start + 1) {
            None => None,
            Some((mag, end)) => {
                proof {
                    lemma_u32_parse_sound(s@, start as int + 1);
                }
                if 1 <= mag && mag <= 0x8000_0000u32 {
                    let v64: i64 = -(mag as i64);
                    Some((v64 as i32, end))
                } else {
                    None
                }
            },
        }
    } else {
        match parse_u32_at(s, start) {
            None => None,
            Some((mag, end)) => {
                proof {
                    lemma_u32_parse_sound(s@, start as int);
                }
                if mag <= 0x7fff_ffffu32 {
                    Some((mag as i32, end))
                } else {
                    None
                }
            },
        }
    }
}

/// Matches a fixed text at position `pos` and returns the position just
/// after it.
fn expect_lit(s: &str, pos: usize, lit: &str) -> (r: Option<usize>)
    requires
        pos <= s@.len(),
    ensures
        r matches Some(q) ==> q == pos + lit@.len() && pos + lit@.len() <= s@.len()
            && s@.subrange(pos as int, pos + lit@.len()) == lit@,
        r is None ==> !(pos + lit@.len() <= s@.len() && s@.subrange(
            pos as int,
            pos + lit@.len(),
        ) == lit@),
{
    let l = lit.unicode_len();
    let n = s.unicode_len();
    if l > n - pos {
        return None;
    }
    let mut k: usize = 0;
    while k < l
        invariant
            k <= l,
            l == lit@.len(),
            n == s@.len(),
            pos + l <= n,
            forall|m: int| 0 <= m < k ==> s@[pos + m] == #[trigger] lit@[m],
        decreases l - k,
    {
        let a = s.get_char(pos + k);
        let b = lit.get_char(k);
        if a != b {
            proof {
                let sub = s@.subrange(pos as int, pos + lit@.len());
                assert(sub[k as int] == s@[pos + k]);
                assert(sub != lit@) by {
                    if sub == lit@ {
                        assert(lit@[k as int] == s@[pos + k]);
                    }
                }
            }
            return None;
        }
        k = k + 1;
    }
    proof {
        assert(s@.subrange(pos as int, pos + lit@.len()) =~= lit@);
    }
    Some(pos + l)
}

/// Appends the canonical decimal numeral of `v` to `out`.
pub fn append_i32(out: &mut String, v: i32)
    ensures
        final(out)@ == old(out)@ + dec_i32(v as int),
{
    if v < 0 {
        out.append("-");
        let mag: u32 = (-(v as i64)) as u32;
        append_u32(out, mag);
        proof {
            reveal_strlit("-");
            assert(out@ =~= old(out)@ + dec_i32(v as int));
        }
    } else {
        append_u32(out, v as u32);
    }
}

#[verifier::opaque]
pub open spec fn enc1(st: Statistics) -> Seq<char> {
    "{\"games_played\":"@ + dec_digits(st.games_played as nat)
}

#[verifier::opaque]
pub open spec fn enc2(st: Statistics) -> Seq<char> {
    enc1(st) + ",\"games_won\":"@ + dec_digits(st.games_won as nat)
}

#[verifier::opaque]
pub open spec fn enc3(st: Statistics) -> Seq<char> {
    enc2(st) + ",\"games_lost\":"@ + dec_digits(st.games_lost as nat)
}

#[verifier::opaque]
pub open spec fn enc4(st: Statistics) -> Seq<char> {
    enc3(st) + ",\"games_tied\":"@ + dec_digits(st.games_tied as nat)
}

#[verifier::opaque]
pub open spec fn enc5(st: Statistics) -> Seq<char> {
    enc4(st) + ",\"total_points\":"@ + dec_i32(st.total_points as int)
}

#[verifier::opaque]
pub open spec fn enc6(st: Statistics) -> Seq<char> {
    enc5(st) + ",\"best_score_differential\":"@ + dec_i32(st.best_score_differential as int)
}

#[verifier::opaque]
pub open spec fn enc7(st: Statistics) -> Seq<char> {
    enc6(st) + ",\"worst_score_differential\":"@ + dec_i32(st.worst_score_differential as int)
}

/// The persisted form of a statistics record: one text object with the seven
/// counters as named decimal fields, in a fixed order.
#[verifier::opaque]
pub open spec fn spec_encode(st: Statistics) -> Seq<char> {
    enc7(st) + "}"@
}

/// Renders a statistics record in its persisted form.
pub fn encode_stats(st: &Statistics) -> (r: String)
    ensures
        r@ == spec_encode(*st),
{
    let mut out = String::new();
    out.append("{\"games_played\":");
    append_u32(&mut out, st.games_played);
    out.append(",\"games_won\":");
    append_u32(&mut out, st.games_won);
    out.append(",\"games_lost\":");
    append_u32(&mut out, st.games_lost);
    out.append(",\"games_tied\":");
    append_u32(&mut out, st.games_tied);
    out.append(",\"total_points\":");
    append_i32(&mut out, st.total_points);
    out.append(",\"best_score_differential\":");
    append_i32(&mut out, st.best_score_differential);
    out.append(",\"worst_score_differential\":");
    append_i32(&mut out, st.worst_score_differential);
    out.append("}");
    proof {
        reveal(spec_encode);
        reveal(enc1);
        reveal(enc2);
        reveal(enc3);
        reveal(enc4);
        reveal(enc5);
        reveal(enc6);
        reveal(enc7);
        assert(out@ =~= spec_encode(*st));
    }
    out
}

proof fn lemma_split_at(s: Seq<char>, lo: int, hi: int, a: Seq<char>, b: Seq<char>)
    requires
        0 <= lo <= hi <= s.len(),
        s.subrange(lo, hi) == a + b,
    ensures
        lo + a.len() + b.len() == hi,
        s.subrange(lo, lo + a.len()) == a,
        s.subrange(lo + a.len(), hi) == b,
{
    assert((a + b).len() == a.len() + b.len());
    assert(s.subrange(lo, hi).len() == hi - lo);
    assert(hi - lo == a.len() + b.len());
    assert forall|i: int| 0 <= i < a.len() implies s.subrange(lo, lo + a.len() as int)[i]
        == a[i] by {
        assert(s.subrange(lo, hi)[i] == (a + b)[i]);
        assert(s.subrange(lo, hi)[i] == s[lo + i]);
        assert(s.subrange(lo, lo + a.len() as int)[i] == s[lo + i]);
    }
    assert(s.subrange(lo, lo + a.len() as int) =~= a);
    assert forall|i: int| 0 <= i < b.len() implies s.subrange(lo + a.len() as int, hi)[i]
        == b[i] by {
        assert(s.subrange(lo, hi)[a.len() + i] == (a + b)[a.len() + i]);
        assert(s.subrange(lo, hi)[a.len() + i] == s[lo + a.len() + i]);
        assert(s.subrange(lo + a.len() as int, hi)[i] == s[lo + a.len() + i]);
    }
    assert(s.subrange(lo + a.len() as int, hi) =~= b);
}

/// The text before the first signed field: the four game counters in their
/// persisted form.
proof fn lemma_prefix_counts(s: Seq<char>, st: Statistics)
    requires
        s == spec_encode(st),
    ensures
        enc4(st).len() < s.len(),
        s.subrange(0, enc4(st).len() as int) == enc4(st),
        !is_digit(s[enc4(st).len() as int]),
{
    reveal(spec_encode);
    reveal(enc7);
    reveal(enc6);
    reveal(enc5);
    reveal_strlit(",\"total_points\":");
    let l5 = ",\"total_points\":"@;
    let l6 = ",\"best_score_differential\":"@;
    let l7 = ",\"worst_score_differential\":"@;
    let l8 = "}"@;
    let e5 = dec_i32(st.total_points as int);
    let e6 = dec_i32(st.best_score_differential as int);
    let e7 = dec_i32(st.worst_score_differential as int);
    assert(s.subrange(0, s.len() as int) =~= s);
    assert(s == enc7(st) + l8);
    lemma_split_at(s, 0, s.len() as int, enc7(st), l8);
    assert(enc7(st) =~= enc6(st) + (l7 + e7));
    lemma_split_at(s, 0, enc7(st).len() as int, enc6(st), l7 + e7);
    assert(enc6(st) =~= enc5(st) + (l6 + e6));
    lemma_split_at(s, 0, enc6(st).len() as int, enc5(st), l6 + e6);
    assert(enc5(st) =~= enc4(st) + (l5 + e5));
    lemma_split_at(s, 0, enc5(st).len() as int, enc4(st), l5 + e5);
    assert(s[enc4(st).len() as int] == (l5 + e5)[0]);
    assert((l5 + e5)[0] == l5[0]);
}

/// Where the four game counters stand in the persisted form of `st`, and
/// that each reads back as the field's value.
#[verifier::rlimit(100)]
proof fn lemma_positions_low(s: Seq<char>, st: Statistics)
    requires
        s == spec_encode(st),
    ensures
        "{\"games_played\":"@.len() <= s.len(),
        s.subrange(0, "{\"games_played\":"@.len() as int) == "{\"games_played\":"@,
        u32_parse(s, "{\"games_played\":"@.len() as int) == Some(
            (st.games_played as int, enc1(st).len() as int),
        ),
        enc1(st).len() as int + ",\"games_won\":"@.len() <= s.len(),
        s.subrange(enc1(st).len() as int, enc1(st).len() as int + ",\"games_won\":"@.len())
            == ",\"games_won\":"@,
        u32_parse(s, enc1(st).len() as int + ",\"games_won\":"@.len()) == Some(
            (st.games_won as int, enc2(st).len() as int),
        ),
        enc2(st).len() as int + ",\"games_lost\":"@.len() <= s.len(),
        s.subrange(enc2(st).len() as int, enc2(st).len() as int + ",\"games_lost\":"@.len())
            == ",\"games_lost\":"@,
        u32_parse(s, enc2(st).len() as int + ",\"games_lost\":"@.len()) == Some(
            (st.games_lost as int, enc3(st).len() as int),
        ),
        enc3(st).len() as int + ",\"games_tied\":"@.len() <= s.len(),
        s.subrange(enc3(st).len() as int, enc3(st).len() as int + ",\"games_tied\":"@.len())
            == ",\"games_tied\":"@,
        u32_parse(s, enc3(st).len() as int + ",\"games_tied\":"@.len()) == Some(
            (st.games_tied as int, enc4(st).len() as int),
        ),
{
    reveal_strlit("{\"games_played\":");
    reveal_strlit(",\"games_won\":");
    reveal_strlit(",\"games_lost\":");
    reveal_strlit(",\"games_tied\":");
    reveal(enc1);
    reveal(enc2);
    reveal(enc3);
    reveal(enc4);
    let l1 = "{\"games_played\":"@;
    let l2 = ",\"games_won\":"@;
    let l3 = ",\"games_lost\":"@;
    let l4 = ",\"games_tied\":"@;
    let d1 = dec_digits(st.games_played as nat);
    let d2 = dec_digits(st.games_won as nat);
    let d3 = dec_digits(st.games_lost as nat);
    let d4 = dec_digits(st.games_tied as nat);
    lemma_prefix_counts(s, st);

    assert(enc4(st) =~= enc3(st) + (l4 + d4));
    lemma_split_at(s, 0, enc4(st).len() as int, enc3(st), l4 + d4);
    lemma_split_at(s, enc3(st).len() as int, enc4(st).len() as int, l4, d4);
    lemma_u32_parse_complete(s, enc3(st).len() as int + l4.len() as int, st.games_tied as nat);
    assert(s[enc3(st).len() as int] == l4[0]);

    assert(enc3(st) =~= enc2(st) + (l3 + d3));
    lemma_split_at(s, 0, enc3(st).len() as int, enc2(st), l3 + d3);
    lemma_split_at(s, enc2(st).len() as int, enc3(st).len() as int, l3, d3);
    lemma_u32_parse_complete(s, enc2(st).len() as int + l3.len() as int, st.games_lost as nat);
    assert(s[enc2(st).len() as int] == l3[0]);

    assert(enc2(st) =~= enc1(st) + (l2 + d2));
    lemma_split_at(s, 0, enc2(st).len() as int, enc1(st), l2 + d2);
    lemma_split_at(s, enc1(st).len() as int, enc2(st).len() as int, l2, d2);
    lemma_u32_parse_complete(s, enc1(st).len() as int + l2.len() as int, st.games_won as nat);
    assert(s[enc1(st).len() as int] == l2[0]);

    assert(enc1(st) =~= l1 + d1);
    lemma_split_at(s, 0, enc1(st).len() as int, l1, d1);
    lemma_u32_parse_complete(s, l1.len() as int, st.games_played as nat);
}

/// Where the three signed fields and the closing brace stand in the
/// persisted form of `st`, and that each reads back as the field's value.
#[verifier::rlimit(100)]
proof fn lemma_positions_high(s: Seq<char>, st: Statistics)
    requires
        s == spec_encode(st),
    ensures
        enc4(st).len() as int + ",\"total_points\":"@.len() <= s.len(),
        s.subrange(enc4(st).len() as int, enc4(st).len() as int + ",\"total_points\":"@.len())
            == ",\"total_points\":"@,
        i32_parse(s, enc4(st).len() as int + ",\"total_points\":"@.len()) == Some(
            (st.total_points as int, enc5(st).len() as int),
        ),
        enc5(st).len() as int + ",\"best_score_differential\":"@.len() <= s.len(),
        s.subrange(
            enc5(st).len() as int,
            enc5(st).len() as int + ",\"best_score_differential\":"@.len(),
        ) == ",\"best_score_differential\":"@,
        i32_parse(s, enc5(st).len() as int + ",\"best_score_differential\":"@.len()) == Some(
            (st.best_score_differential as int, enc6(st).len() as int),
        ),
        enc6(st).len() as int + ",\"worst_score_differential\":"@.len() <= s.len(),
        s.subrange(
            enc6(st).len() as int,
            enc6(st).len() as int + ",\"worst_score_differential\":"@.len(),
        ) == ",\"worst_score_differential\":"@,
        i32_parse(s, enc6(st).len() as int + ",\"worst_score_differential\":"@.len()) == Some(
            (st.worst_score_differential as int, enc7(st).len() as int),
        ),
        s.len() == enc7(st).len() + 1,
        s.subrange(enc7(st).len() as int, s.len() as int) == "}"@,
{
    reveal_strlit(",\"total_points\":");
    reveal_strlit(",\"best_score_differential\":");
    reveal_strlit(",\"worst_score_differential\":");
    reveal_strlit("}");
    reveal(spec_encode);
    reveal(enc5);
    reveal(enc6);
    reveal(enc7);
    let l5 = ",\"total_points\":"@;
    let l6 = ",\"best_score_differential\":"@;
    let l7 = ",\"worst_score_differential\":"@;
    let l8 = "}"@;
    let e5 = dec_i32(st.total_points as int);
    let e6 = dec_i32(st.best_score_differential as int);
    let e7 = dec_i32(st.worst_score_differential as int);

    assert(s.subrange(0, s.len() as int) =~= s);
    assert(s == enc7(st) + l8);
    lemma_split_at(s, 0, s.len() as int, enc7(st), l8);
    assert(s[enc7(st).len() as int] == l8[0]);

    assert(enc7(st) =~= enc6(st) + (l7 + e7));
    lemma_split_at(s, 0, enc7(st).len() as int, enc6(st), l7 + e7);
    lemma_split_at(s, enc6(st).len() as int, enc7(st).len() as int, l7, e7);
    lemma_i32_parse_complete(
        s,
        enc6(st).len() as int + l7.len() as int,
        st.worst_score_differential as int,
    );
    assert(s[enc6(st).len() as int] == l7[0]);

    assert(enc6(st) =~= enc5(st) + (l6 + e6));
    lemma_split_at(s, 0, enc6(st).len() as int, enc5(st), l6 + e6);
    lemma_split_at(s, enc5(st).len() as int, enc6(st).len() as int, l6, e6);
    lemma_i32_parse_complete(
        s,
        enc5(st).len() as int + l6.len() as int,
        st.best_score_differential as int,
    );
    assert(s[enc5(st).len() as int] == l6[0]);

    assert(enc5(st) =~= enc4(st) + (l5 + e5));
    lemma_split_at(s, 0, enc5(st).len() as int, enc4(st), l5 + e5);
    lemma_split_at(s, enc4(st).len() as int, enc5(st).len() as int, l5, e5);
    lemma_i32_parse_complete(
        s,
        enc4(st).len() as int + l5.len() as int,
        st.total_points as int,
    );
}

/// Reads the four game counters at the head of a persisted record and
/// returns them with the position just after the last one.
#[verifier::rlimit(100)]
fn parse_counts(s: &str) -> (r: Option<(u32, u32, u32, u32, usize)>)
    ensures
        r matches Some(t) ==> ({
            let front = (Statistics {
                games_played: t.0,
                games_won: t.1,
                games_lost: t.2,
                games_tied: t.3,
                total_points: 0,
                best_score_differential: 0,
                worst_score_differential: 0,
            });
            &&& t.4 <= s@.len()
            &&& t.4 == enc4(front).len()
            &&& s@.subrange(0, t.4 as int) == enc4(front)
        }),
        forall|st: Statistics| s@ == spec_encode(st) ==> r == Some(
            (st.games_played, st.games_won, st.games_lost, st.games_tied, enc4(st).len() as usize),
        ),
{
    let p1 = match expect_lit(s, 0, "{\"games_played\":") {
        Some(p) => p,
        None => {
            proof {
                assert forall|st: Statistics| s@ != spec_encode(st) by {
                    if s@ == spec_encode(st) {
                        lemma_positions_low(s@, st);
                    }
                }
            }
            return None;
        },
    };
    let (v1, p2) = match parse_u32_at(s, p1) {
        Some(p) => p,
        None => {
            proof {
                assert forall|st: Statistics| s@ != spec_encode(st) by {
                    if s@ == spec_encode(st) {
                        lemma_positions_low(s@, st);
                    }
                }
            }
            return None;
        },
    };
    proof {
        lemma_u32_parse_sound(s@, p1 as int);
    }
    let p3 = match expect_lit(s, p2, ",\"games_won\":") {
        Some(p) => p,
        None => {
            proof {
                assert forall|st: Statistics| s@ != spec_encode(st) by {
                    if s@ == spec_encode(st) {
                        lemma_positions_low(s@, st);
                    }
                }
            }
            return None;
        },
    };
    let (v2, p4) = match parse_u32_at(s, p3) {
        Some(p) => p,
        None => {
            proof {
                assert forall|st: Statistics| s@ != spec_encode(st) by {
                    if s@ == spec_encode(st) {
                        lemma_positions_low(s@, st);
                    }
                }
            }
            return None;
        },
    };
    proof {
        lemma_u32_parse_sound(s@, p3 as int);
    }
    let p5 = match expect_lit(s, p4, ",\"games_lost\":") {
        Some(p) => p,
        None => {
            proof {
                assert forall|st: Statistics| s@ != spec_encode(st) by {
                    if s@ == spec_encode(st) {
                        lemma_positions_low(s@, st);
                    }
                }
            }
            return None;
        },
    };
    let (v3, p6) = match parse_u32_at(s, p5) {
        Some(p) => p,
        None => {
            proof {
                assert forall|st: Statistics| s@ != spec_encode(st) by {
                    if s@ == spec_encode(st) {
                        lemma_positions_low(s@, st);
                    }
                }
            }
            return None;
        },
    };
    proof {
        lemma_u32_parse_sound(s@, p5 as int);
    }
    let p7 = match expect_lit(s, p6, ",\"games_tied\":") {
        Some(p) => p,
        None => {
            proof {
                assert forall|st: Statistics| s@ != spec_encode(st) by {
                    if s@ == spec_encode(st) {
                        lemma_positions_low(s@, st);
                    }
                }
            }
            return None;
        },
    };
    let (v4, p8) = match parse_u32_at(s, p7) {
        Some(p) => p,
        None => {
            proof {
                assert forall|st: Statistics| s@ != spec_encode(st) by {
                    if s@ == spec_encode(st) {
                        lemma_positions_low(s@, st);
                    }
                }
            }
            return None;
        },
    };
    proof {
        lemma_u32_parse_sound(s@, p7 as int);
        reveal(enc1);
        reveal(enc2);
        reveal(enc3);
        reveal(enc4);
        let front = Statistics {
            games_played: v1,
            games_won: v2,
            games_lost: v3,
            games_tied: v4,
            total_points: 0,
            best_score_differential: 0,
            worst_score_differential: 0,
        };
        assert(s@.subrange(0, p2 as int) =~= enc1(front));
        assert(s@.subrange(0, p4 as int) =~= enc2(front));
        assert(s@.subrange(0, p6 as int) =~= enc3(front));
        assert(s@.subrange(0, p8 as int) =~= enc4(front));
        assert forall|st: Statistics| s@ == spec_encode(st) implies (v1 == st.games_played && v2
            == st.games_won && v3 == st.games_lost && v4 == st.games_tied && p8 == enc4(
            st,
        ).len()) by {
            lemma_positions_low(s@, st);
        }
    }
    Some((v1, v2, v3, v4, p8))
}

/// Reads a statistics record back from its persisted form. The read
/// succeeds exactly on the texts that `encode_stats` produces: any other
/// text — missing, reordered or malformed fields, values out of range —
/// yields nothing, and the caller falls back to a fresh record.
#[verifier::rlimit(100)]
pub fn decode_stats(s: &str) -> (r: Option<Statistics>)
    ensures
        r matches Some(st) ==> s@ == spec_encode(st),
        forall|st: Statistics| s@ == spec_encode(st) ==> r == Some(st),
{
    let n = s.unicode_len();
    let (v1, v2, v3, v4, p8) = match parse_counts(s) {
        Some(t) => t,
        None => {
            return None;
        },
    };
    let p9 = match expect_lit(s, p8, ",\"total_points\":") {
        Some(p) => p,
        None => {
            proof {
                assert forall|st: Statistics| s@ != spec_encode(st) by {
                    if s@ == spec_encode(st) {
                        lemma_positions_high(s@, st);
                    }
                }
            }
            return None;
        },
    };
    let (w5, p10) = match parse_i32_at(s, p9) {
        Some(p) => p,
        None => {
            proof {
                assert forall|st: Statistics| s@ != spec_encode(st) by {
                    if s@ == spec_encode(st) {
                        lemma_positions_high(s@, st);
                    }
                }
            }
            return None;
        },
    };
    proof {
        lemma_i32_parse_sound(s@, p9 as int);
    }
    let p11 = match expect_lit(s, p10, ",\"best_score_differential\":") {
        Some(p) => p,
        None => {
            proof {
                assert forall|st: Statistics| s@ != spec_encode(st) by {
                    if s@ == spec_encode(st) {
                        lemma_positions_high(s@, st);
                    }
                }
            }
            return None;
        },
    };
    let (w6, p12) = match parse_i32_at(s, p11) {
        Some(p) => p,
        None => {
            proof {
                assert forall|st: Statistics| s@ != spec_encode(st) by {
                    if s@ == spec_encode(st) {
                        lemma_positions_high(s@, st);
                    }
                }
            }
            return None;
        },
    };
    proof {
        lemma_i32_parse_sound(s@, p11 as int);
    }
    let p13 = match expect_lit(s, p12, ",\"worst_score_differential\":") {
        Some(p) => p,
        None => {
            proof {
                assert forall|st: Statistics| s@ != spec_encode(st) by {
                    if s@ == spec_encode(st) {
                        lemma_positions_high(s@, st);
                    }
                }
            }
            return None;
        },
    };
    let (w7, p14) = match parse_i32_at(s, p13) {
        Some(p) => p,
        None => {
            proof {
                assert forall|st: Statistics| s@ != spec_encode(st) by {
                    if s@ == spec_encode(st) {
                        lemma_positions_high(s@, st);
                    }
                }
            }
            return None;
        },
    };
    proof {
        lemma_i32_parse_sound(s@, p13 as int);
    }
    let p15 = match expect_lit(s, p14, "}") {
        Some(p) => p,
        None => {
            proof {
                assert forall|st: Statistics| s@ != spec_encode(st) by {
                    if s@ == spec_encode(st) {
                        lemma_positions_high(s@, st);
                    }
                }
            }
            return None;
        },
    };
    if p15 != n {
        proof {
            assert forall|st: Statistics| s@ != spec_encode(st) by {
                if s@ == spec_encode(st) {
                    lemma_positions_high(s@, st);
                }
            }
        }
        return None;
    }
    let st = Statistics {
        games_played: v1,
        games_won: v2,
        games_lost: v3,
        games_tied: v4,
        total_points: w5,
        best_score_differential: w6,
        worst_score_differential: w7,
    };
    proof {
        reveal(spec_encode);
        reveal(enc1);
        reveal(enc2);
        reveal(enc3);
        reveal(enc4);
        reveal(enc5);
        reveal(enc6);
        reveal(enc7);
        let front = Statistics {
            games_played: v1,
            games_won: v2,
            games_lost: v3,
            games_tied: v4,
            total_points: 0,
            best_score_differential: 0,
            worst_score_differential: 0,
        };
        assert(enc4(st) == enc4(front));
        assert(s@.subrange(0, p8 as int) == enc4(st));
        assert(s@.subrange(p8 as int, p9 as int) == ",\"total_points\":"@);
        assert(s@.subrange(p9 as int, p10 as int) == dec_i32(w5 as int));
        assert(s@.subrange(p10 as int, p11 as int) == ",\"best_score_differential\":"@);
        assert(s@.subrange(p11 as int, p12 as int) == dec_i32(w6 as int));
        assert(s@.subrange(p12 as int, p13 as int) == ",\"worst_score_differential\":"@);
        assert(s@.subrange(p13 as int, p14 as int) == dec_i32(w7 as int));
        assert(s@.subrange(p14 as int, p15 as int) == "}"@);
        assert(s@.subrange(0, p10 as int) =~= enc5(st));
        assert(s@.subrange(0, p12 as int) =~= enc6(st));
        assert(s@.subrange(0, p14 as int) =~= enc7(st));
        assert(s@.subrange(0, p15 as int) =~= spec_encode(st));
        assert(s@.subrange(0, n as int) =~= s@);
        assert forall|st0: Statistics| s@ == spec_encode(st0) implies st == st0 by {
            lemma_positions_high(s@, st0);
        }
    }
    Some(st)
}

} // verus!
