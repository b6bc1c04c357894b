//! Ordering of rendered timestamps: because every numeric field is rendered
//! zero-padded at a fixed width, comparing two renderings character by
//! character agrees with comparing the instants themselves.

use crate::calendar::{date_of_rdn, lemma_rdn_of_date_strict_mono};
use crate::render::{
    dec_padded, digit_char, hour_of_unix, lemma_dec_padded_len, lemma_fields_in_range,
    minute_of_unix, pow10, rdn_of_unix, second_of_unix, timestamp_seq, tod_of_unix, UNIX_EPOCH,
    SECONDS_OF_YEAR_10000,
};
use vstd::arithmetic::div_mod::{
    lemma_div_denominator, lemma_div_is_ordered, lemma_fundamental_div_mod,
    lemma_mod_division_less_than_divisor,
};
use vstd::prelude::*;

verus! {

/// Strict lexicographic order on character sequences: at the first position
/// where the two differ (or where the shorter one ends), `a` is the smaller.
pub open spec fn lex_lt(a: Seq<char>, b: Seq<char>) -> bool {
    exists|i: int|
        0 <= i <= a.len() && i <= b.len() && (forall|k: int| 0 <= k < i ==> a[k] == b[k]) && ((i
            == a.len() && i < b.len()) || (i < a.len() && i < b.len() && a[i] < b[i]))
}

/// Exhibiting one deciding position establishes the order.
proof fn lemma_lex_at(a: Seq<char>, b: Seq<char>, i: int)
    requires
        0 <= i < a.len(),
        i < b.len(),
        forall|k: int| 0 <= k < i ==> a[k] == b[k],
        a[i] < b[i],
    ensures
        lex_lt(a, b),
{
}

/// The two-character rendering of a smaller value is lexicographically
/// smaller, wherever the two fields sit inside larger strings with equal
/// prefixes.
proof fn lemma_lex_digits2(a: Seq<char>, b: Seq<char>, p: int, n1: int, n2: int)
    requires
        0 <= n1 < n2 < 100,
        0 <= p,
        p + 2 <= a.len(),
        p + 2 <= b.len(),
        forall|k: int| 0 <= k < p ==> a[k] == b[k],
        forall|k: int| 0 <= k < 2 ==> a[p + k] == dec_padded(n1, 2)[k],
        forall|k: int| 0 <= k < 2 ==> b[p + k] == dec_padded(n2, 2)[k],
    ensures
        lex_lt(a, b),
{
    reveal_with_fuel(dec_padded, 3);
    lemma_fundamental_div_mod(n1, 10);
    lemma_mod_division_less_than_divisor(n1, 10);
    lemma_fundamental_div_mod(n2, 10);
    lemma_mod_division_less_than_divisor(n2, 10);
    assert(dec_padded(n1, 2) =~= seq![digit_char(n1 / 10), digit_char(n1 % 10)]);
    assert(dec_padded(n2, 2) =~= seq![digit_char(n2 / 10), digit_char(n2 % 10)]);
    assert(a[p + 0] == dec_padded(n1, 2)[0]);
    assert(a[p + 1] == dec_padded(n1, 2)[1]);
    assert(b[p + 0] == dec_padded(n2, 2)[0]);
    assert(b[p + 1] == dec_padded(n2, 2)[1]);
    if n1 / 10 == n2 / 10 {
        assert(n1 % 10 < n2 % 10);
        assert(digit_char(n1 % 10) < digit_char(n2 % 10));
        lemma_lex_at(a, b, p + 1);
    } else {
        assert(n1 / 10 < n2 / 10);
        assert(digit_char(n1 / 10) < digit_char(n2 / 10));
        lemma_lex_at(a, b, p);
    }
}

/// The same, for the four-character year field.
proof fn lemma_lex_digits4(a: Seq<char>, b: Seq<char>, p: int, n1: int, n2: int)
    requires
        0 <= n1 < n2 < 10000,
        0 <= p,
        p + 4 <= a.len(),
        p + 4 <= b.len(),
        forall|k: int| 0 <= k < p ==> a[k] == b[k],
        forall|k: int| 0 <= k < 4 ==> a[p + k] == dec_padded(n1, 4)[k],
        forall|k: int| 0 <= k < 4 ==> b[p + k] == dec_padded(n2, 4)[k],
    ensures
        lex_lt(a, b),
{
    lemma_dec4_form(n1);
    lemma_dec4_form(n2);
    lemma_digit_positions(n1);
    lemma_digit_positions(n2);
    assert(a[p + 0] == dec_padded(n1, 4)[0]);
    assert(a[p + 1] == dec_padded(n1, 4)[1]);
    assert(a[p + 2] == dec_padded(n1, 4)[2]);
    assert(a[p + 3] == dec_padded(n1, 4)[3]);
    assert(b[p + 0] == dec_padded(n2, 4)[0]);
    assert(b[p + 1] == dec_padded(n2, 4)[1]);
    assert(b[p + 2] == dec_padded(n2, 4)[2]);
    assert(b[p + 3] == dec_padded(n2, 4)[3]);
    if n1 / 1000 != n2 / 1000 {
        assert(digit_char(n1 / 1000) < digit_char(n2 / 1000));
        lemma_lex_at(a, b, p);
    } else if (n1 / 100) % 10 != (n2 / 100) % 10 {
        assert(digit_char((n1 / 100) % 10) < digit_char((n2 / 100) % 10));
        lemma_lex_at(a, b, p + 1);
    } else if (n1 / 10) % 10 != (n2 / 10) % 10 {
        assert(digit_char((n1 / 10) % 10) < digit_char((n2 / 10) % 10));
        lemma_lex_at(a, b, p + 2);
    } else {
        assert(digit_char(n1 % 10) < digit_char(n2 % 10));
        lemma_lex_at(a, b, p + 3);
    }
}

/// Law: string order matches time order.  For two instants in the four-digit
/// year era, the earlier instant's rendering is lexicographically smaller,
/// whatever the (shared) microsecond field holds.  Beyond year 9999 the year
/// field grows wider and plain string comparison no longer agrees with time
/// order, so those inputs are excluded.
pub proof fn lemma_format_monotonic(s1: int, s2: int, micros: int)
    requires
        0 <= s1 < s2 < SECONDS_OF_YEAR_10000 as int,
        0 <= micros,
    ensures
        lex_lt(timestamp_seq(s1, micros), timestamp_seq(s2, micros)),
{
    let a = timestamp_seq(s1, micros);
    let b = timestamp_seq(s2, micros);
    lemma_fields_in_range(s1);
    lemma_fields_in_range(s2);
    let r1 = rdn_of_unix(s1);
    let r2 = rdn_of_unix(s2);
    let t1 = date_of_rdn(r1);
    let t2 = date_of_rdn(r2);
    let h1 = hour_of_unix(s1);
    let h2 = hour_of_unix(s2);
    let mi1 = minute_of_unix(s1);
    let mi2 = minute_of_unix(s2);
    let se1 = second_of_unix(s1);
    let se2 = second_of_unix(s2);
    reveal_with_fuel(pow10, 7);
    lemma_dec_padded_len(t1.0, 4);
    lemma_dec_padded_len(t2.0, 4);
    lemma_dec_padded_len(t1.1, 2);
    lemma_dec_padded_len(t2.1, 2);
    lemma_dec_padded_len(t1.2, 2);
    lemma_dec_padded_len(t2.2, 2);
    lemma_dec_padded_len(h1, 2);
    lemma_dec_padded_len(h2, 2);
    lemma_dec_padded_len(mi1, 2);
    lemma_dec_padded_len(mi2, 2);
    lemma_dec_padded_len(se1, 2);
    lemma_dec_padded_len(se2, 2);
    lemma_div_is_ordered(s1 + UNIX_EPOCH as int, s2 + UNIX_EPOCH as int, 86400);
    if r1 < r2 {
        // The civil dates are distinct and ordered like their day counts.
        if t1.0 == t2.0 && t1.1 == t2.1 && t1.2 == t2.2 {
            assert(false);
        }
        if !(t1.0 < t2.0 || (t1.0 == t2.0 && t1.1 < t2.1) || (t1.0 == t2.0 && t1.1 == t2.1
            && t1.2 < t2.2)) {
            lemma_rdn_of_date_strict_mono(t2.0, t2.1, t2.2, t1.0, t1.1, t1.2);
            assert(false);
        }
        if t1.0 < t2.0 {
            assert(forall|k: int| 0 <= k < 4 ==> a[k] == dec_padded(t1.0, 4)[k]);
            assert(forall|k: int| 0 <= k < 4 ==> b[k] == dec_padded(t2.0, 4)[k]);
            lemma_lex_digits4(a, b, 0, t1.0, t2.0);
        } else if t1.1 < t2.1 {
            assert(forall|k: int| 0 <= k < 5 ==> a[k] == b[k]);
            assert(forall|k: int| 0 <= k < 2 ==> a[5 + k] == dec_padded(t1.1, 2)[k]);
            assert(forall|k: int| 0 <= k < 2 ==> b[5 + k] == dec_padded(t2.1, 2)[k]);
            lemma_lex_digits2(a, b, 5, t1.1, t2.1);
        } else {
            assert(forall|k: int| 0 <= k < 8 ==> a[k] == b[k]);
            assert(forall|k: int| 0 <= k < 2 ==> a[8 + k] == dec_padded(t1.2, 2)[k]);
            assert(forall|k: int| 0 <= k < 2 ==> b[8 + k] == dec_padded(t2.2, 2)[k]);
            lemma_lex_digits2(a, b, 8, t1.2, t2.2);
        }
    } else {
        // Same day: the whole date part coincides; the time of day decides.
        let tod1 = tod_of_unix(s1);
        let tod2 = tod_of_unix(s2);
        lemma_fundamental_div_mod(s1 + UNIX_EPOCH as int, 86400);
        lemma_fundamental_div_mod(s2 + UNIX_EPOCH as int, 86400);
        assert(tod1 < tod2);
        lemma_fundamental_div_mod(tod1, 3600);
        lemma_mod_division_less_than_divisor(tod1, 3600);
        lemma_fundamental_div_mod(tod2, 3600);
        lemma_mod_division_less_than_divisor(tod2, 3600);
        lemma_div_is_ordered(tod1, tod2, 3600);
        if h1 < h2 {
            assert(forall|k: int| 0 <= k < 11 ==> a[k] == b[k]);
            assert(forall|k: int| 0 <= k < 2 ==> a[11 + k] == dec_padded(h1, 2)[k]);
            assert(forall|k: int| 0 <= k < 2 ==> b[11 + k] == dec_padded(h2, 2)[k]);
            lemma_lex_digits2(a, b, 11, h1, h2);
        } else {
            let x1 = tod1 % 3600;
            let x2 = tod2 % 3600;
            assert(x1 < x2);
            lemma_fundamental_div_mod(x1, 60);
            lemma_mod_division_less_than_divisor(x1, 60);
            lemma_fundamental_div_mod(x2, 60);
            lemma_mod_division_less_than_divisor(x2, 60);
            lemma_div_is_ordered(x1, x2, 60);
            // The seconds field is the time of day modulo 60, which equals the
            // in-hour remainder modulo 60.
            vstd::arithmetic::div_mod::lemma_mod_multiples_vanish(60 * h1, x1, 60);
            vstd::arithmetic::div_mod::lemma_mod_multiples_vanish(60 * h2, x2, 60);
            assert(se1 == x1 % 60);
            assert(se2 == x2 % 60);
            if mi1 < mi2 {
                assert(forall|k: int| 0 <= k < 14 ==> a[k] == b[k]);
                assert(forall|k: int| 0 <= k < 2 ==> a[14 + k] == dec_padded(mi1, 2)[k]);
                assert(forall|k: int| 0 <= k < 2 ==> b[14 + k] == dec_padded(mi2, 2)[k]);
                lemma_lex_digits2(a, b, 14, mi1, mi2);
            } else {
                assert(se1 < se2);
                assert(forall|k: int| 0 <= k < 17 ==> a[k] == b[k]);
                assert(forall|k: int| 0 <= k < 2 ==> a[17 + k] == dec_padded(se1, 2)[k]);
                assert(forall|k: int| 0 <= k < 2 ==> b[17 + k] == dec_padded(se2, 2)[k]);
                lemma_lex_digits2(a, b, 17, se1, se2);
            }
        }
    }
}

/// The four-character rendering spelled out digit by digit.
proof fn lemma_dec4_form(n: int)
    requires
        0 <= n < 10000,
    ensures
        dec_padded(n, 4) =~= seq![
            digit_char(n / 1000),
            digit_char((n / 100) % 10),
            digit_char((n / 10) % 10),
            digit_char(n % 10),
        ],
{
    reveal_with_fuel(dec_padded, 5);
    lemma_div_denominator(n, 10, 10);
    lemma_div_denominator(n, 100, 10);
    lemma_fundamental_div_mod(n, 10);
    lemma_mod_division_less_than_divisor(n, 10);
    lemma_fundamental_div_mod(n / 10, 10);
    lemma_mod_division_less_than_divisor(n / 10, 10);
    lemma_fundamental_div_mod(n / 100, 10);
    lemma_mod_division_less_than_divisor(n / 100, 10);
    lemma_fundamental_div_mod(n / 1000, 10);
    lemma_mod_division_less_than_divisor(n / 1000, 10);
}

/// A four-digit value is the weighted sum of its rendered digits, so equal
/// leading digits force the remaining comparison onto the lower digits.
proof fn lemma_digit_positions(n: int)
    requires
        0 <= n < 10000,
    ensures
        n == 1000 * (n / 1000) + 100 * ((n / 100) % 10) + 10 * ((n / 10) % 10) + n % 10,
        0 <= n / 1000 <= 9,
        0 <= (n / 100) % 10 <= 9,
        0 <= (n / 10) % 10 <= 9,
        0 <= n % 10 <= 9,
{
    lemma_div_denominator(n, 10, 10);
    lemma_div_denominator(n, 100, 10);
    lemma_fundamental_div_mod(n, 10);
    lemma_mod_division_less_than_divisor(n, 10);
    lemma_fundamental_div_mod(n / 10, 10);
    lemma_mod_division_less_than_divisor(n / 10, 10);
    lemma_fundamental_div_mod(n / 100, 10);
    lemma_mod_division_less_than_divisor(n / 100, 10);
}

} // verus!
