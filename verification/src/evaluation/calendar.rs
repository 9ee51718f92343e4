//! Dates of the Gregorian calendar.
use crate::alto_ast;
use crate::alto_ast::decimal_text;
use crate::text::joined;
use vstd::prelude::*;

verus! {

/// Whether a year has a leap day.
pub open spec fn is_leap(y: int) -> bool {
    y % 4 == 0 && (y % 100 != 0 || y % 400 == 0)
}

/// One in a leap year.
pub open spec fn leap_day(y: int) -> int {
    if is_leap(y) {
        1
    } else {
        0
    }
}

/// The days from the start of year zero to the start of year `y`.
pub open spec fn days_before_year(y: int) -> int {
    365 * y + (y + 3) / 4 - (y + 99) / 100 + (y + 399) / 400
}

/// The days of a month.
pub open spec fn days_in_month(y: int, m: int) -> int {
    if m == 2 {
        28 + leap_day(y)
    } else if m == 4 || m == 6 || m == 9 || m == 11 {
        30
    } else {
        31
    }
}

/// The days of a year before a month.
pub open spec fn days_before_month(y: int, m: int) -> int
    decreases m,
{
    if m <= 1 {
        0
    } else {
        days_before_month(y, m - 1) + days_in_month(y, m - 1)
    }
}

/// The days from 1 January 1970 to a date.
pub open spec fn day_number(y: int, m: int, d: int) -> int {
    days_before_year(y) + days_before_month(y, m) + d - 1 - 719_528
}

/// Whether a date exists.
pub open spec fn is_date(y: int, m: int, d: int) -> bool {
    1 <= m <= 12 && 1 <= d <= days_in_month(y, m)
}

/// The days before each month.
pub proof fn lemma_months(y: int)
    ensures
        days_before_month(y, 1) == 0,
        days_before_month(y, 2) == 31,
        days_before_month(y, 3) == 59 + leap_day(y),
        days_before_month(y, 4) == 90 + leap_day(y),
        days_before_month(y, 5) == 120 + leap_day(y),
        days_before_month(y, 6) == 151 + leap_day(y),
        days_before_month(y, 7) == 181 + leap_day(y),
        days_before_month(y, 8) == 212 + leap_day(y),
        days_before_month(y, 9) == 243 + leap_day(y),
        days_before_month(y, 10) == 273 + leap_day(y),
        days_before_month(y, 11) == 304 + leap_day(y),
        days_before_month(y, 12) == 334 + leap_day(y),
{
    reveal_with_fuel(days_before_month, 13);
}

/// The days before 1 March of a year, counted from 1 March of year zero.
proof fn lemma_march(era: int, century: int, fours: int, ones: int)
    requires
        0 <= era,
        0 <= century <= 3,
        0 <= fours <= 24,
        0 <= ones <= 3,
    ensures
        ({
            let y = 400 * era + 100 * century + 4 * fours + ones;
            days_before_year(y) + 59 + leap_day(y) - 60 == 146_097 * era + 36_524 * century + 1461
                * fours + 365 * ones
        }),
        ({
            let y = 400 * era + 100 * century + 4 * fours + ones;
            days_before_year(y + 1) == days_before_year(y) + 365 + leap_day(y)
        }),
        ({
            let y = 400 * era + 100 * century + 4 * fours + ones;
            is_leap(y + 1) == (ones == 3 && (fours != 24 || century == 3))
        }),
{
    let y = 400 * era + 100 * century + 4 * fours + ones;
    assert(y / 4 == 100 * era + 25 * century + fours);
    assert(y % 4 == ones);
    assert(y / 100 == 4 * era + century);
    assert(y % 100 == 4 * fours + ones);
    assert(y / 400 == era);
    assert(y % 400 == 100 * century + 4 * fours + ones);
    assert((y + 3) / 4 == y / 4 + (if ones > 0 { 1int } else { 0 }));
    assert((y + 99) / 100 == y / 100 + (if 4 * fours + ones > 0 { 1int } else { 0 }));
    assert((y + 399) / 400 == y / 400 + (if 100 * century + 4 * fours + ones > 0 { 1int } else {
        0
    }));
}

/// The date that lies `days` days after 1 January 1970, as year, month and day.
pub fn civil_from_days(days: u64) -> (r: (u64, u64, u64))
    requires
        days <= 0x0fff_ffff_ffff_ffff,
    ensures
        is_date(r.0 as int, r.1 as int, r.2 as int),
        day_number(r.0 as int, r.1 as int, r.2 as int) == days,
{
    let z: u64 = days + 719_468;
    let era: u64 = z / 146_097;
    let of_era: u64 = z % 146_097;
    let century: u64 = if of_era / 36_524 > 3 {
        3
    } else {
        of_era / 36_524
    };
    let of_century: u64 = of_era - century * 36_524;
    let fours: u64 = of_century / 1461;
    let of_fours: u64 = of_century % 1461;
    let ones: u64 = if of_fours / 365 > 3 {
        3
    } else {
        of_fours / 365
    };
    let of_year: u64 = of_fours - ones * 365;
    let year: u64 = era * 400 + century * 100 + fours * 4 + ones;
    let shifted: u64 = (5 * of_year + 2) / 153;
    let before: u64 = (153 * shifted + 2) / 5;
    proof {
        assert(of_century <= 36_524);
        assert(fours <= 24);
        assert(of_year <= 365);
        assert(shifted <= 11);
        lemma_march(era as int, century as int, fours as int, ones as int);
        lemma_months(year as int);
        lemma_months(year as int + 1);
        assert(z == 146_097 * era + 36_524 * century + 1461 * fours + 365 * ones + of_year);
        assert(before <= of_year);
        assert(of_year == 365 ==> is_leap(year as int + 1));
    }
    let day: u64 = of_year - before + 1;
    if shifted < 10 {
        (year, shifted + 3, day)
    } else {
        (year + 1, shifted - 9, day)
    }
}

/// A number with zeros in front up to a width.
pub open spec fn padded(n: nat, width: nat) -> Seq<char> {
    let digits = alto_ast::decimal(n);
    if digits.len() >= width {
        digits
    } else {
        Seq::new((width - digits.len()) as nat, |i: int| '0') + digits
    }
}

/// Writes a number with zeros in front up to a width.
fn padded_text(n: usize, width: usize) -> (r: String)
    ensures
        r@ == padded(n as nat, width as nat),
{
    let digits = decimal_text(n);
    let length: usize = crate::text::chars_of(digits.as_str()).len();
    if length >= width {
        return digits;
    }
    let mut r = String::new();
    let mut i: usize = 0;
    assert(r@ =~= Seq::new(0nat, |i: int| '0'));
    while i < width - length
        invariant
            length < width,
            i <= width - length,
            r@ == Seq::new(i as nat, |i: int| '0'),
        decreases width - length - i,
    {
        r.push('0');
        i += 1;
        assert(r@ =~= Seq::new(i as nat, |i: int| '0'));
    }
    joined(r.as_str(), digits.as_str())
}

/// The text of a time: date, time of day and zone.
pub open spec fn time_text(y: nat, m: nat, d: nat, seconds: nat) -> Seq<char> {
    padded(y, 4) + "-"@ + padded(m, 2) + "-"@ + padded(d, 2) + " "@ + padded(seconds / 3600, 2)
        + ":"@ + padded(seconds % 3600 / 60, 2) + ":"@ + padded(seconds % 60, 2) + " UTC"@
}

/// Writes a time, given in seconds after the start of 1970.
pub fn utc_text(seconds: u64) -> (r: String)
    requires
        seconds / 86_400 < usize::MAX / 2,
    ensures
        exists|y: nat, m: nat, d: nat|
            is_date(y as int, m as int, d as int) && day_number(y as int, m as int, d as int)
                == seconds / 86_400 && r@ == #[trigger] time_text(
                y,
                m,
                d,
                (seconds % 86_400) as nat,
            ),
{
    let (y, m, d): (u64, u64, u64) = civil_from_days(seconds / 86_400);
    let rest: u64 = seconds % 86_400;
    proof {
        assert(days_before_year(y as int) <= seconds / 86_400 + 719_528) by {
            lemma_months(y as int);
        }
    }
    let mut r = padded_text(y as usize, 4);
    r = joined(r.as_str(), "-");
    r = joined(r.as_str(), padded_text(m as usize, 2).as_str());
    r = joined(r.as_str(), "-");
    r = joined(r.as_str(), padded_text(d as usize, 2).as_str());
    r = joined(r.as_str(), " ");
    r = joined(r.as_str(), padded_text((rest / 3600) as usize, 2).as_str());
    r = joined(r.as_str(), ":");
    r = joined(r.as_str(), padded_text((rest % 3600 / 60) as usize, 2).as_str());
    r = joined(r.as_str(), ":");
    r = joined(r.as_str(), padded_text((rest % 60) as usize, 2).as_str());
    r = joined(r.as_str(), " UTC");
    assert(r@ == time_text(y as nat, m as nat, d as nat, rest as nat));
    r
}

} // verus!
