//! The calendar converter: a day count since the reference epoch becomes a
//! proleptic-Gregorian (year, month, day) triple.
//!
//! Day 0 of the reference epoch is 0000-12-31 in the proleptic Gregorian
//! calendar, so that the Unix epoch 1970-01-01 falls on day 719163.  The
//! conversion is Peter Baum's Rata Die formulation: it works in a March-based
//! year (February, the variable-length month, sits at the end of the internal
//! year), and linearizes the 400-year Gregorian leap cycle with closed-form
//! integer arithmetic instead of per-rule branches.

use vstd::prelude::*;
use vstd::arithmetic::div_mod::{
    lemma_fundamental_div_mod, lemma_fundamental_div_mod_converse_div,
    lemma_fundamental_div_mod_converse_mod, lemma_mod_division_less_than_divisor,
};

verus! {

/// Largest day count the converter accepts.  It keeps every intermediate
/// product inside `u64` and the resulting year inside `u32`; inputs beyond it
/// are left out of the domain rather than being allowed to wrap.
pub const MAX_RDN: u64 = 1_500_000_000_000;

/// A year is a leap year when it is divisible by 4, except centuries not
/// divisible by 400 (proleptic Gregorian rule).
pub open spec fn is_leap_year(y: int) -> bool {
    y % 4 == 0 && (y % 100 != 0 || y % 400 == 0)
}

/// Number of days in month `m` (1-based) of year `y`.
pub open spec fn days_in_month(y: int, m: int) -> int {
    if m == 2 {
        if is_leap_year(y) {
            29
        } else {
            28
        }
    } else if m == 4 || m == 6 || m == 9 || m == 11 {
        30
    } else {
        31
    }
}

/// A well-formed civil date: the day exists in the given month and year.
pub open spec fn valid_date(y: int, m: int, d: int) -> bool {
    0 <= y && 1 <= m <= 12 && 1 <= d <= days_in_month(y, m)
}

/// Days between March 1 and the first day of month `m`, in the March-based
/// internal year (so January and February carry the largest offsets).
pub open spec fn month_offset(m: int) -> int {
    if m == 1 {
        306
    } else if m == 2 {
        337
    } else if m == 3 {
        0
    } else if m == 4 {
        31
    } else if m == 5 {
        61
    } else if m == 6 {
        92
    } else if m == 7 {
        122
    } else if m == 8 {
        153
    } else if m == 9 {
        184
    } else if m == 10 {
        214
    } else if m == 11 {
        245
    } else {
        275
    }
}

/// Complete days contributed by the years up to and including year `y`,
/// counted from the reference epoch: `365*y` plus one day per leap year.
pub open spec fn year_day_count(y: int) -> int {
    365 * y + y / 4 - y / 100 + y / 400
}

/// Day count of the civil date (y, m, d): the inverse direction of the
/// converter.  January and February belong to the previous March-based year.
pub open spec fn rdn_of_date(y: int, m: int, d: int) -> int {
    let yy = if m >= 3 {
        y
    } else {
        y - 1
    };
    d + month_offset(m) + year_day_count(yy) - 306
}

/// The intermediate quantities of the Rata Die conversion, as closed-form
/// integer arithmetic.  `rd_z` shifts the day count so that the internal epoch
/// aligns to March 1 of year 0; `rd_a` counts the full centuries before the
/// day, `rd_b` the leap days those centuries withhold, `rd_y0` the March-based
/// year, `rd_d` the day inside that year, and `rd_m0` the internal month
/// (3 = March .. 14 = February).
pub open spec fn rd_z(rdn: int) -> int {
    rdn + 306
}

pub open spec fn rd_h(rdn: int) -> int {
    100 * rd_z(rdn) - 25
}

pub open spec fn rd_a(rdn: int) -> int {
    rd_h(rdn) / 3652425
}

pub open spec fn rd_b(rdn: int) -> int {
    rd_a(rdn) - rd_a(rdn) / 4
}

pub open spec fn rd_y0(rdn: int) -> int {
    (100 * rd_b(rdn) + rd_h(rdn)) / 36525
}

pub open spec fn rd_d(rdn: int) -> int {
    rd_b(rdn) + rd_z(rdn) - (1461 * rd_y0(rdn)) / 4
}

pub open spec fn rd_m0(rdn: int) -> int {
    (535 * rd_d(rdn) + 48950) / 16384
}

/// The civil date the converter assigns to a day count: when the internal
/// month runs past December, the date falls in January or February of the
/// next civil year.
pub open spec fn date_of_rdn(rdn: int) -> (int, int, int) {
    if rd_m0(rdn) > 12 {
        (rd_y0(rdn) + 1, rd_m0(rdn) - 12, rd_d(rdn) - month_offset(rd_m0(rdn) - 12))
    } else {
        (rd_y0(rdn), rd_m0(rdn), rd_d(rdn) - month_offset(rd_m0(rdn)))
    }
}

/// The heart of the converter's correctness: for every in-range day count the
/// closed-form arithmetic lands on a well-formed civil date, and that date maps
/// back to the same day count.  The proof names the quotient and remainder of
/// each fixed-point division, after which every step is linear arithmetic.
proof fn lemma_rdn_internals(rdn: int)
    requires
        0 <= rdn <= MAX_RDN as int,
    ensures
        1 <= rd_d(rdn) <= 366,
        3 <= rd_m0(rdn) <= 14,
        0 <= rd_a(rdn) <= 41_069_000,
        0 <= rd_y0(rdn) <= 4_106_900_099,
        valid_date(date_of_rdn(rdn).0, date_of_rdn(rdn).1, date_of_rdn(rdn).2),
        rdn_of_date(date_of_rdn(rdn).0, date_of_rdn(rdn).1, date_of_rdn(rdn).2) == rdn,
        date_of_rdn(rdn).0 <= 4_106_900_100,
        rd_d(rdn) - month_offset(if rd_m0(rdn) > 12 {
            rd_m0(rdn) - 12
        } else {
            rd_m0(rdn)
        }) >= 1,
{
    let z = rd_z(rdn);
    let h = rd_h(rdn);
    let a = rd_a(rdn);
    lemma_fundamental_div_mod(h, 3652425);
    lemma_mod_division_less_than_divisor(h, 3652425);
    let hr = h % 3652425;
    assert(h == 3652425 * a + hr);
    assert(0 <= a);
    assert(a <= 41_069_000);
    let aq = a / 4;
    lemma_fundamental_div_mod(a, 4);
    lemma_mod_division_less_than_divisor(a, 4);
    let ar = a % 4;
    let b = rd_b(rdn);
    assert(b == 3 * aq + ar);
    // w: the day's position inside century a (1-based), counted from March 1.
    let w = z - 36524 * a - aq;
    assert(100 * w == 25 * ar + 25 + hr);
    assert(1 <= w);
    assert(ar <= 2 ==> w <= 36524);
    assert(w <= 36525);
    // j: the year inside the century.
    let j = (100 * w - 25) / 36525;
    lemma_fundamental_div_mod(100 * w - 25, 36525);
    lemma_mod_division_less_than_divisor(100 * w - 25, 36525);
    let wr = (100 * w - 25) % 36525;
    assert(0 <= j);
    assert(j <= 99);
    let y = rd_y0(rdn);
    assert(100 * b + h == (100 * a + j) * 36525 + wr);
    lemma_fundamental_div_mod_converse_div(100 * b + h, 36525, 100 * a + j, wr);
    assert(y == 100 * a + j);
    let jq = j / 4;
    lemma_fundamental_div_mod(j, 4);
    lemma_mod_division_less_than_divisor(j, 4);
    let jr = j % 4;
    assert(1461 * y == (36525 * a + 365 * j + jq) * 4 + jr);
    lemma_fundamental_div_mod_converse_div(1461 * y, 4, 36525 * a + 365 * j + jq, jr);
    let d = rd_d(rdn);
    assert(d == w - 365 * j - jq);
    assert(100 * d == 25 * jr + 25 + wr);
    assert(1 <= d);
    assert(d <= 366);
    // lb: whether the February that ends this March-based year is a leap one.
    let yn = y + 1;
    let lb: int = if j == 99 {
        if ar == 3 {
            1
        } else {
            0
        }
    } else {
        if jr == 3 {
            1
        } else {
            0
        }
    };
    assert(d <= 365 + lb);
    if j <= 98 {
        if jr == 3 {
            lemma_fundamental_div_mod_converse_mod(yn, 4, 25 * a + jq + 1, 0);
            lemma_fundamental_div_mod_converse_mod(yn, 100, a, j + 1);
            assert(is_leap_year(yn));
        } else {
            lemma_fundamental_div_mod_converse_mod(yn, 4, 25 * a + jq, jr + 1);
            assert(!is_leap_year(yn));
        }
    } else {
        assert(jq == 24 && jr == 3);
        lemma_fundamental_div_mod_converse_mod(yn, 4, 25 * (a + 1), 0);
        lemma_fundamental_div_mod_converse_mod(yn, 100, a + 1, 0);
        if ar == 3 {
            lemma_fundamental_div_mod_converse_mod(yn, 400, aq + 1, 0);
            assert(is_leap_year(yn));
        } else {
            lemma_fundamental_div_mod_converse_mod(yn, 400, aq, 100 * ar + 100);
            assert(!is_leap_year(yn));
        }
    }
    assert(is_leap_year(yn) <==> lb == 1);
    // The month formula places d between the offsets of its month and the next.
    let m0 = rd_m0(rdn);
    lemma_fundamental_div_mod(535 * d + 48950, 16384);
    lemma_mod_division_less_than_divisor(535 * d + 48950, 16384);
    assert(16384 * m0 <= 535 * d + 48950);
    assert(535 * d + 48950 < 16384 * m0 + 16384);
    assert(3 <= m0);
    assert(m0 <= 14);
    let mm = if m0 > 12 {
        m0 - 12
    } else {
        m0
    };
    let yc = if m0 > 12 {
        y + 1
    } else {
        y
    };
    assert(month_offset(mm) < d);
    assert(m0 == 14 ==> d - month_offset(mm) <= days_in_month(yc, mm));
    assert(m0 <= 13 ==> d - month_offset(mm) <= days_in_month(yc, mm));
    // Reassembling: the forward formula applied to the result gives rdn back.
    lemma_fundamental_div_mod_converse_div(y, 4, 25 * a + jq, jr);
    lemma_fundamental_div_mod_converse_div(y, 100, a, j);
    lemma_fundamental_div_mod_converse_div(y, 400, aq, 100 * ar + j);
    assert(year_day_count(y) == 36524 * a + 365 * j + jq + aq);
    assert(valid_date(yc, mm, d - month_offset(mm)));
    assert(rdn_of_date(yc, mm, d - month_offset(mm)) == rdn);
    assert(date_of_rdn(rdn) == (yc, mm, d - month_offset(mm)));
}

/// Law: the conversion is exact.  Every in-range day count yields a
/// well-formed proleptic-Gregorian date, and the forward day-count formula
/// carries that date back to the same day count.
pub proof fn lemma_date_of_rdn_correct(rdn: int)
    requires
        0 <= rdn <= MAX_RDN as int,
    ensures
        valid_date(date_of_rdn(rdn).0, date_of_rdn(rdn).1, date_of_rdn(rdn).2),
        rdn_of_date(date_of_rdn(rdn).0, date_of_rdn(rdn).1, date_of_rdn(rdn).2) == rdn,
        date_of_rdn(rdn).0 <= 4_106_900_100,
{
    lemma_rdn_internals(rdn);
}

/// Converts a day count since the reference epoch into a civil
/// (year, month, day) triple.
///
/// Day 0 is 0000-12-31; the Unix epoch 1970-01-01 is day 719163.  The result
/// is the unique well-formed date whose forward day count equals `rdn`.
pub fn rdn_to_ymd(rdn: u64) -> (r: (u32, u32, u32))
    requires
        rdn <= MAX_RDN,
    ensures
        r.0 == date_of_rdn(rdn as int).0,
        r.1 == date_of_rdn(rdn as int).1,
        r.2 == date_of_rdn(rdn as int).2,
        valid_date(r.0 as int, r.1 as int, r.2 as int),
        rdn_of_date(r.0 as int, r.1 as int, r.2 as int) == rdn as int,
{
    proof {
        lemma_rdn_internals(rdn as int);
    }
    let z: u64 = rdn + 306;
    let h: u64 = 100 * z - 25;
    let a: u64 = h / 3652425;
    let b: u64 = a - a / 4;
    assert(b as int == rd_b(rdn as int));
    let y: u64 = (100 * b + h) / 36525;
    assert(y as int == rd_y0(rdn as int));
    let q: u64 = 1461 * y / 4;
    let d: u64 = b + z - q;
    assert(d as int == rd_d(rdn as int));
    let m: u64 = (535 * d + 48950) / 16384;
    assert(m as int == rd_m0(rdn as int));
    if m > 12 {
        let dom: u64 = d - month_offset_x(m - 12);
        ((y + 1) as u32, (m - 12) as u32, dom as u32)
    } else {
        let dom: u64 = d - month_offset_x(m);
        (y as u32, m as u32, dom as u32)
    }
}

/// Law: the conversion is the one and only inverse of the forward formula.
/// Any well-formed date whose forward day count equals `rdn` is the date the
/// converter yields.
pub proof fn lemma_date_of_rdn_unique(rdn: int, y: int, m: int, d: int)
    requires
        0 <= rdn <= MAX_RDN as int,
        valid_date(y, m, d),
        rdn_of_date(y, m, d) == rdn,
    ensures
        date_of_rdn(rdn).0 == y,
        date_of_rdn(rdn).1 == m,
        date_of_rdn(rdn).2 == d,
{
    lemma_date_of_rdn_correct(rdn);
    let t = date_of_rdn(rdn);
    if !(t.0 == y && t.1 == m && t.2 == d) {
        if t.0 < y || (t.0 == y && (t.1 < m || (t.1 == m && t.2 < d))) {
            lemma_rdn_of_date_strict_mono(t.0, t.1, t.2, y, m, d);
        } else {
            lemma_rdn_of_date_strict_mono(y, m, d, t.0, t.1, t.2);
        }
        assert(false);
    }
}

/// The calendar successor of a date: the next day, rolling over month and
/// year ends.
pub open spec fn next_date(y: int, m: int, d: int) -> (int, int, int) {
    if d < days_in_month(y, m) {
        (y, m, d + 1)
    } else if m < 12 {
        (y, m + 1, 1)
    } else {
        (y + 1, 1, 1)
    }
}

/// The forward formula counts the successor exactly one day later.
proof fn lemma_rdn_of_next_date(y: int, m: int, d: int)
    requires
        valid_date(y, m, d),
    ensures
        valid_date(next_date(y, m, d).0, next_date(y, m, d).1, next_date(y, m, d).2),
        rdn_of_date(next_date(y, m, d).0, next_date(y, m, d).1, next_date(y, m, d).2)
            == rdn_of_date(y, m, d) + 1,
{
    lemma_year_day_count_next(y);
}

/// Law: each successive day count maps to the next calendar day.
pub proof fn lemma_date_of_rdn_next(rdn: int)
    requires
        0 <= rdn < MAX_RDN as int,
    ensures
        ({
            let t = date_of_rdn(rdn);
            let n = next_date(t.0, t.1, t.2);
            date_of_rdn(rdn + 1).0 == n.0 && date_of_rdn(rdn + 1).1 == n.1 && date_of_rdn(
                rdn + 1,
            ).2 == n.2
        }),
{
    lemma_date_of_rdn_correct(rdn);
    let t = date_of_rdn(rdn);
    lemma_rdn_of_next_date(t.0, t.1, t.2);
    let n = next_date(t.0, t.1, t.2);
    lemma_date_of_rdn_unique(rdn + 1, n.0, n.1, n.2);
}

/// Law: day 0 of the reference epoch is 0000-12-31.
pub proof fn lemma_reference_epoch()
    ensures
        date_of_rdn(0).0 == 0,
        date_of_rdn(0).1 == 12,
        date_of_rdn(0).2 == 31,
{
    assert(rdn_of_date(0, 12, 31) == 0);
    lemma_date_of_rdn_unique(0, 0, 12, 31);
}

/// Law: the Unix epoch 1970-01-01 falls on day 719163.
pub proof fn lemma_unix_epoch_day()
    ensures
        date_of_rdn(719163).0 == 1970,
        date_of_rdn(719163).1 == 1,
        date_of_rdn(719163).2 == 1,
{
    assert(rdn_of_date(1970, 1, 1) == 719163);
    lemma_date_of_rdn_unique(719163, 1970, 1, 1);
}

/// One year adds 365 days, plus one more when it is a leap year.
proof fn lemma_year_day_count_next(y: int)
    requires
        y >= 0,
    ensures
        year_day_count(y) == year_day_count(y - 1) + 365 + (if is_leap_year(y) {
            1int
        } else {
            0int
        }),
{
    lemma_fundamental_div_mod(y, 4);
    lemma_mod_division_less_than_divisor(y, 4);
    lemma_fundamental_div_mod(y, 100);
    lemma_mod_division_less_than_divisor(y, 100);
    lemma_fundamental_div_mod(y, 400);
    lemma_mod_division_less_than_divisor(y, 400);
    let q4 = y / 4;
    let r4 = y % 4;
    let q100 = y / 100;
    let r100 = y % 100;
    let q400 = y / 400;
    let r400 = y % 400;
    if r4 == 0 {
        lemma_fundamental_div_mod_converse_div(y - 1, 4, q4 - 1, 3);
    } else {
        lemma_fundamental_div_mod_converse_div(y - 1, 4, q4, r4 - 1);
    }
    if r100 == 0 {
        lemma_fundamental_div_mod_converse_div(y - 1, 100, q100 - 1, 99);
        lemma_fundamental_div_mod_converse_mod(y, 4, 25 * q100, 0);
    } else {
        lemma_fundamental_div_mod_converse_div(y - 1, 100, q100, r100 - 1);
    }
    if r400 == 0 {
        lemma_fundamental_div_mod_converse_div(y - 1, 400, q400 - 1, 399);
        lemma_fundamental_div_mod_converse_mod(y, 100, 4 * q400, 0);
    } else {
        lemma_fundamental_div_mod_converse_div(y - 1, 400, q400, r400 - 1);
    }
}

/// The cumulative day count never shrinks as years advance.
proof fn lemma_year_day_count_mono(t1: int, t2: int)
    requires
        -1 <= t1 <= t2,
    ensures
        year_day_count(t1) <= year_day_count(t2),
    decreases t2 - t1,
{
    if t1 < t2 {
        lemma_year_day_count_mono(t1, t2 - 1);
        lemma_year_day_count_next(t2);
    }
}

/// Law: the forward day-count formula is strictly increasing over well-formed
/// dates ordered as (year, month, day) triples.  In particular it is
/// injective, so `date_of_rdn` yields the only date that maps to a day count.
pub proof fn lemma_rdn_of_date_strict_mono(y1: int, m1: int, d1: int, y2: int, m2: int, d2: int)
    requires
        valid_date(y1, m1, d1),
        valid_date(y2, m2, d2),
        y1 < y2 || (y1 == y2 && m1 < m2) || (y1 == y2 && m1 == m2 && d1 < d2),
    ensures
        rdn_of_date(y1, m1, d1) < rdn_of_date(y2, m2, d2),
{
    lemma_year_day_count_next(y1);
    lemma_year_day_count_next(y2);
    if y1 == y2 {
        if m1 < m2 {
            if m1 >= 3 {
                assert(month_offset(m1) + days_in_month(y1, m1) <= month_offset(m2));
            }
        }
    } else {
        // The latest day of year y1 comes before the earliest day of year y2.
        assert(m1 >= 3 ==> month_offset(m1) + days_in_month(y1, m1) <= 306);
        assert(rdn_of_date(y1, m1, d1) <= year_day_count(y1));
        assert(rdn_of_date(y2, m2, d2) >= year_day_count(y2 - 1) + 1);
        lemma_year_day_count_mono(y1, y2 - 1);
    }
}

/// Table lookup for the month offsets, indexed by civil month.
pub fn month_offset_x(m: u64) -> (r: u64)
    requires
        1 <= m <= 12,
    ensures
        r == month_offset(m as int),
{
    match m {
        1 => 306,
        2 => 337,
        3 => 0,
        4 => 31,
        5 => 61,
        6 => 92,
        7 => 122,
        8 => 153,
        9 => 184,
        10 => 214,
        11 => 245,
        _ => 275,
    }
}

} // verus!
