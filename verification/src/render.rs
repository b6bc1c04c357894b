//! The timestamp formatter: splits a Unix timestamp into calendar and
//! time-of-day fields and renders them as the fixed-width RFC3339 string
//! `YYYY-MM-DDTHH:MM:SS.ffffffZ`, always UTC, always with six fractional
//! digits.

use crate::calendar::{date_of_rdn, rdn_to_ymd, MAX_RDN};
use vstd::arithmetic::div_mod::{
    lemma_div_decreases, lemma_fundamental_div_mod, lemma_mod_division_less_than_divisor,
};
use vstd::prelude::*;
use vstd::string::StringExecFns;

verus! {

/// Seconds in a calendar day.
pub const SECONDS_PER_DAY: u64 = 86400;

/// Seconds between the reference epoch (day 0 = 0000-12-31) and
/// 1970-01-01T00:00:00Z, i.e. 719163 days.
pub const UNIX_EPOCH: u64 = 62_135_683_200;

/// Largest `seconds` input the formatter accepts: the derived day count must
/// stay inside the calendar converter's domain.  Larger inputs are excluded
/// from the domain outright instead of being allowed to wrap.
pub const MAX_SECONDS: u64 = MAX_RDN * 86400 + 86399 - UNIX_EPOCH;

/// A rendered RFC3339 timestamp.
pub type Timestamp = String;

/// Day count since the reference epoch of the day containing the instant.
pub open spec fn rdn_of_unix(seconds: int) -> int {
    (seconds + UNIX_EPOCH as int) / 86400
}

/// Seconds elapsed since midnight UTC of that day.
pub open spec fn tod_of_unix(seconds: int) -> int {
    (seconds + UNIX_EPOCH as int) % 86400
}

pub open spec fn hour_of_unix(seconds: int) -> int {
    tod_of_unix(seconds) / 3600
}

pub open spec fn minute_of_unix(seconds: int) -> int {
    (tod_of_unix(seconds) % 3600) / 60
}

pub open spec fn second_of_unix(seconds: int) -> int {
    tod_of_unix(seconds) % 60
}

/// The character for one decimal digit.
pub open spec fn digit_char(d: int) -> char {
    if d == 0 {
        '0'
    } else if d == 1 {
        '1'
    } else if d == 2 {
        '2'
    } else if d == 3 {
        '3'
    } else if d == 4 {
        '4'
    } else if d == 5 {
        '5'
    } else if d == 6 {
        '6'
    } else if d == 7 {
        '7'
    } else if d == 8 {
        '8'
    } else {
        '9'
    }
}

/// The decimal rendering of `n`, zero-padded on the left to at least `w`
/// characters and never truncated: exactly what a minimum-width zero-pad
/// format produces.
pub open spec fn dec_padded(n: int, w: int) -> Seq<char>
    decreases (if n > 0 {
        n
    } else {
        0
    }), (if w > 0 {
        w
    } else {
        0
    }),
{
    if n <= 0 && w <= 0 {
        Seq::empty()
    } else {
        dec_padded(
            if n >= 10 {
                n / 10
            } else {
                0
            },
            if w >= 1 {
                w - 1
            } else {
                0
            },
        ).push(digit_char(n % 10))
    }
}

/// The full rendered timestamp for the given instant, as a character
/// sequence: six zero-padded numeric fields joined by the fixed separators,
/// with a trailing `Z`.
pub open spec fn timestamp_seq(seconds: int, micros: int) -> Seq<char> {
    let ymd = date_of_rdn(rdn_of_unix(seconds));
    dec_padded(ymd.0, 4) + seq!['-'] + dec_padded(ymd.1, 2) + seq!['-'] + dec_padded(ymd.2, 2)
        + seq!['T'] + dec_padded(hour_of_unix(seconds), 2) + seq![':'] + dec_padded(
        minute_of_unix(seconds),
        2,
    ) + seq![':'] + dec_padded(second_of_unix(seconds), 2) + seq!['.'] + dec_padded(micros, 6)
        + seq!['Z']
}

/// Powers of ten, for stating how many digits a value needs.
pub open spec fn pow10(e: int) -> int
    decreases (if e > 0 {
        e
    } else {
        0
    }),
{
    if e <= 0 {
        1
    } else {
        10 * pow10(e - 1)
    }
}

proof fn lemma_pow10_pos(e: int)
    ensures
        pow10(e) >= 1,
    decreases (if e > 0 {
        e
    } else {
        0
    }),
{
    if e > 0 {
        lemma_pow10_pos(e - 1);
    }
}

/// A value below `10^w` renders to exactly `w` characters.
pub proof fn lemma_dec_padded_len(n: int, w: int)
    requires
        0 <= n < pow10(w),
        0 <= w,
    ensures
        dec_padded(n, w).len() == w,
    decreases w,
{
    if w == 0 {
    } else {
        let p = pow10(w - 1);
        lemma_pow10_pos(w - 1);
        let n2 = if n >= 10 {
            n / 10
        } else {
            0
        };
        if n >= 10 {
            lemma_fundamental_div_mod(n, 10);
            lemma_mod_division_less_than_divisor(n, 10);
            assert(n2 < p);
        }
        lemma_dec_padded_len(n2, w - 1);
    }
}

/// Every character the decimal rendering produces is a digit.
pub proof fn lemma_dec_padded_digits(n: int, w: int)
    requires
        0 <= n,
    ensures
        forall|i: int|
            0 <= i < dec_padded(n, w).len() ==> '0' <= #[trigger] dec_padded(n, w)[i] <= '9',
    decreases (if n > 0 {
        n
    } else {
        0
    }), (if w > 0 {
        w
    } else {
        0
    }),
{
    if n <= 0 && w <= 0 {
    } else {
        let n2 = if n >= 10 {
            n / 10
        } else {
            0
        };
        let w2 = if w >= 1 {
            w - 1
        } else {
            0
        };
        if n >= 10 {
            lemma_div_decreases(n, 10);
            lemma_fundamental_div_mod(n, 10);
        }
        lemma_mod_division_less_than_divisor(n, 10);
        lemma_dec_padded_digits(n2, w2);
        assert('0' <= digit_char(n % 10) <= '9');
        assert(dec_padded(n, w) == dec_padded(n2, w2).push(digit_char(n % 10)));
    }
}

/// Seconds corresponding to 10000-01-01T00:00:00Z: below it the year field is
/// exactly four digits wide.
pub const SECONDS_OF_YEAR_10000: u64 = 253402300800;

/// For instants before year 10000, every numeric field sits in its expected
/// range: four digits of year, and two of month, day, hour, minute, second.
pub proof fn lemma_fields_in_range(seconds: int)
    requires
        0 <= seconds < SECONDS_OF_YEAR_10000 as int,
    ensures
        0 <= rdn_of_unix(seconds) <= 3652059,
        ({
            let ymd = date_of_rdn(rdn_of_unix(seconds));
            crate::calendar::valid_date(ymd.0, ymd.1, ymd.2)
                && crate::calendar::rdn_of_date(ymd.0, ymd.1, ymd.2) == rdn_of_unix(seconds)
                && 0 <= ymd.0 < 10000 && 1 <= ymd.1 <= 12 && 1 <= ymd.2 <= 31
        }),
        0 <= hour_of_unix(seconds) <= 23,
        0 <= minute_of_unix(seconds) <= 59,
        0 <= second_of_unix(seconds) <= 59,
{
    let rdn = rdn_of_unix(seconds);
    let abs = seconds + UNIX_EPOCH as int;
    lemma_fundamental_div_mod(abs, 86400);
    lemma_mod_division_less_than_divisor(abs, 86400);
    assert(0 <= rdn <= 3652059);
    crate::calendar::lemma_date_of_rdn_correct(rdn);
    let ymd = date_of_rdn(rdn);
    if ymd.0 >= 10000 {
        if !(ymd.0 == 10000 && ymd.1 == 1 && ymd.2 == 1) {
            crate::calendar::lemma_rdn_of_date_strict_mono(10000, 1, 1, ymd.0, ymd.1, ymd.2);
        }
        assert(crate::calendar::rdn_of_date(10000, 1, 1) == 3652060);
        assert(false);
    }
    let tod = tod_of_unix(seconds);
    lemma_fundamental_div_mod(tod, 3600);
    lemma_mod_division_less_than_divisor(tod, 3600);
    lemma_fundamental_div_mod(tod % 3600, 60);
    lemma_mod_division_less_than_divisor(tod % 3600, 60);
    lemma_mod_division_less_than_divisor(tod, 60);
}

/// Law: field-width invariants.  For in-range inputs the rendering is exactly
/// 27 characters, the five separators, the fraction point and the trailing
/// `Z` sit at their fixed positions, and every other position is a decimal
/// digit.
pub proof fn lemma_timestamp_shape(seconds: int, micros: int)
    requires
        0 <= seconds < SECONDS_OF_YEAR_10000 as int,
        0 <= micros < 1000000,
    ensures
        timestamp_seq(seconds, micros).len() == 27,
        timestamp_seq(seconds, micros)[4] == '-',
        timestamp_seq(seconds, micros)[7] == '-',
        timestamp_seq(seconds, micros)[10] == 'T',
        timestamp_seq(seconds, micros)[13] == ':',
        timestamp_seq(seconds, micros)[16] == ':',
        timestamp_seq(seconds, micros)[19] == '.',
        timestamp_seq(seconds, micros)[26] == 'Z',
        forall|i: int|
            0 <= i < 27 && i != 4 && i != 7 && i != 10 && i != 13 && i != 16 && i != 19 && i != 26
                ==> '0' <= #[trigger] timestamp_seq(seconds, micros)[i] <= '9',
{
    lemma_fields_in_range(seconds);
    let ymd = date_of_rdn(rdn_of_unix(seconds));
    reveal_with_fuel(pow10, 7);
    lemma_dec_padded_len(ymd.0, 4);
    lemma_dec_padded_len(ymd.1, 2);
    lemma_dec_padded_len(ymd.2, 2);
    lemma_dec_padded_len(hour_of_unix(seconds), 2);
    lemma_dec_padded_len(minute_of_unix(seconds), 2);
    lemma_dec_padded_len(second_of_unix(seconds), 2);
    lemma_dec_padded_len(micros, 6);
    lemma_dec_padded_digits(ymd.0, 4);
    lemma_dec_padded_digits(ymd.1, 2);
    lemma_dec_padded_digits(ymd.2, 2);
    lemma_dec_padded_digits(hour_of_unix(seconds), 2);
    lemma_dec_padded_digits(minute_of_unix(seconds), 2);
    lemma_dec_padded_digits(second_of_unix(seconds), 2);
    lemma_dec_padded_digits(micros, 6);
}

/// Law: the formatter is deterministic.  Its output is a function of the two
/// inputs alone, so any two renderings of the same instant are identical.
pub proof fn lemma_format_deterministic(seconds: int, micros: int, r1: Seq<char>, r2: Seq<char>)
    requires
        r1 == timestamp_seq(seconds, micros),
        r2 == timestamp_seq(seconds, micros),
    ensures
        r1 == r2,
{
}

/// One decimal digit as a string slice.
fn digit_str(d: u64) -> (r: &'static str)
    requires
        d < 10,
    ensures
        r@ == seq![digit_char(d as int)],
{
    match d {
        0 => {
            proof {
                reveal_strlit("0");
                assert("0"@ =~= seq![digit_char(0)]);
            }
            "0"
        },
        1 => {
            proof {
                reveal_strlit("1");
                assert("1"@ =~= seq![digit_char(1)]);
            }
            "1"
        },
        2 => {
            proof {
                reveal_strlit("2");
                assert("2"@ =~= seq![digit_char(2)]);
            }
            "2"
        },
        3 => {
            proof {
                reveal_strlit("3");
                assert("3"@ =~= seq![digit_char(3)]);
            }
            "3"
        },
        4 => {
            proof {
                reveal_strlit("4");
                assert("4"@ =~= seq![digit_char(4)]);
            }
            "4"
        },
        5 => {
            proof {
                reveal_strlit("5");
                assert("5"@ =~= seq![digit_char(5)]);
            }
            "5"
        },
        6 => {
            proof {
                reveal_strlit("6");
                assert("6"@ =~= seq![digit_char(6)]);
            }
            "6"
        },
        7 => {
            proof {
                reveal_strlit("7");
                assert("7"@ =~= seq![digit_char(7)]);
            }
            "7"
        },
        8 => {
            proof {
                reveal_strlit("8");
                assert("8"@ =~= seq![digit_char(8)]);
            }
            "8"
        },
        _ => {
            proof {
                reveal_strlit("9");
                assert("9"@ =~= seq![digit_char(9)]);
            }
            "9"
        },
    }
}

/// Appends the zero-padded decimal rendering of `n` to `out`.
fn push_decimal(out: &mut String, n: u64, w: u8)
    ensures
        final(out)@ == old(out)@ + dec_padded(n as int, w as int),
    decreases n, w,
{
    if n == 0 && w == 0 {
        proof {
            assert(old(out)@ + dec_padded(0, 0) =~= old(out)@);
        }
        return ;
    }
    let q: u64 = n / 10;
    let r: u64 = n % 10;
    let w2: u8 = if w >= 1 {
        w - 1
    } else {
        0
    };
    proof {
        if n > 0 {
            lemma_div_decreases(n as int, 10);
        }
    }
    push_decimal(out, q, w2);
    out.append(digit_str(r));
    proof {
        assert(out@ =~= old(out)@ + dec_padded(n as int, w as int));
    }
}

/// Converts a Unix timestamp into an RFC3339 date-time string in UTC.
///
/// `seconds` counts whole seconds since the Unix epoch; `micros` is the
/// sub-second microsecond component, rendered zero-padded to at least six
/// digits.  A `micros` value of 1,000,000 or more is not reduced: it renders
/// wider than six digits, exactly as given.
pub fn format_unix(seconds: u64, micros: u32) -> (r: Timestamp)
    requires
        seconds <= MAX_SECONDS,
    ensures
        r@ == timestamp_seq(seconds as int, micros as int),
{
    let abs: u64 = seconds + UNIX_EPOCH;
    let days: u64 = abs / SECONDS_PER_DAY;
    proof {
        lemma_fundamental_div_mod(abs as int, 86400);
        lemma_mod_division_less_than_divisor(abs as int, 86400);
        assert(days <= MAX_RDN);
    }
    let ymd = rdn_to_ymd(days);
    let sec: u64 = abs % SECONDS_PER_DAY;
    let hour: u64 = sec / 3600;
    let minute: u64 = (sec % 3600) / 60;
    let second: u64 = sec % 60;
    proof {
        reveal_strlit("-");
        reveal_strlit("T");
        reveal_strlit(":");
        reveal_strlit(".");
        reveal_strlit("Z");
    }
    let mut out = String::new();
    push_decimal(&mut out, ymd.0 as u64, 4);
    out.append("-");
    push_decimal(&mut out, ymd.1 as u64, 2);
    out.append("-");
    push_decimal(&mut out, ymd.2 as u64, 2);
    out.append("T");
    push_decimal(&mut out, hour, 2);
    out.append(":");
    push_decimal(&mut out, minute, 2);
    out.append(":");
    push_decimal(&mut out, second, 2);
    out.append(".");
    push_decimal(&mut out, micros as u64, 6);
    out.append("Z");
    proof {
        assert(out@ =~= timestamp_seq(seconds as int, micros as int));
    }
    out
}

} // verus!
