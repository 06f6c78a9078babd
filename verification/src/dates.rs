//! Calendar dates as the pages print them: `YYYY-MM-DD` for a bar's epoch stamp, and the
//! synthetic labels of the mock series.
use vstd::prelude::*;
use crate::text::{
    digit, four_digits, lemma_digit_order, lemma_lex_at, lemma_padded_four, lemma_padded_two, lex_lt,
    padded_int, push_padded_int, string_of, two_digits,
};

verus! {

/// The civil date `(year, month, day)` of the day `days` after 1970-01-01 in the proleptic
/// Gregorian calendar, by the era / year-of-era / day-of-year decomposition.
pub open spec fn civil_from_days(days: int) -> (int, int, int) {
    let z = days + 719468;
    let era = z / 146097;
    let doe = z % 146097;
    let yoe = (doe - doe / 1460 + doe / 36524 - doe / 146096) / 365;
    let doy = doe - (365 * yoe + yoe / 4 - yoe / 100);
    let mp = (5 * doy + 2) / 153;
    let d = doy - (153 * mp + 2) / 5 + 1;
    let m = if mp < 10 {
        mp + 3
    } else {
        mp - 9
    };
    let y = yoe + era * 400 + (if m <= 2 {
        1int
    } else {
        0int
    });
    (y, m, d)
}

/// `YYYY-MM-DD`, each field zero-padded as `format!("{y:04}-{m:02}-{d:02}")` writes it.
pub open spec fn iso_text(y: int, m: int, d: int) -> Seq<char> {
    padded_int(y, 4) + seq!['-'] + padded_int(m, 2) + seq!['-'] + padded_int(d, 2)
}

/// The calendar date `days` days after 1970-01-01: the one valid date that counts to it
/// (see [`lemma_civil_from_days`] and [`lemma_civil_unique`]).
pub open spec fn date_of_day(days: int) -> (int, int, int) {
    choose|t: (int, int, int)| is_valid_date(t.0, t.1, t.2) && days_from_civil(t.0, t.1, t.2) == days
}

/// The UTC calendar date of an epoch-seconds stamp, as `YYYY-MM-DD`.
pub open spec fn iso_date_of(epoch_secs: int) -> Seq<char> {
    let (y, m, d) = date_of_day(epoch_secs / 86400);
    iso_text(y, m, d)
}

/// Appends `iso_text(y, m, d)`.
fn push_iso(out: &mut Vec<char>, y: i64, m: i64, d: i64)
    requires
        old(out)@.len() == 0,
        0 <= m,
        0 <= d,
    ensures
        final(out)@ == iso_text(y as int, m as int, d as int),
{
    push_padded_int(out, y, 4);
    out.push('-');
    push_padded_int(out, m, 2);
    out.push('-');
    push_padded_int(out, d, 2);
    assert(out@ =~= iso_text(y as int, m as int, d as int));
}

/// Epoch seconds → `YYYY-MM-DD` (UTC).
pub fn iso_date(epoch_secs: i64) -> (r: String)
    ensures
        r@ == iso_date_of(epoch_secs as int),
{
    let days: i64 = match epoch_secs.checked_div_euclid(86400) {
        Some(q) => q,
        None => 0,
    };
    assert(days == epoch_secs as int / 86400);
    let z: i64 = days + 719468;
    let era: i64 = match z.checked_div_euclid(146097) {
        Some(q) => q,
        None => 0,
    };
    let doe_i: i64 = match z.checked_rem_euclid(146097) {
        Some(q) => q,
        None => 0,
    };
    assert(era == z as int / 146097);
    assert(doe_i == z as int % 146097);
    let doe: u64 = doe_i as u64;
    let yoe: u64 = (doe - doe / 1460 + doe / 36524 - doe / 146096) / 365;
    assert(yoe <= 400);
    let doy: u64 = doe - (365 * yoe + yoe / 4 - yoe / 100);
    let mp: u64 = (5 * doy + 2) / 153;
    let d: u64 = doy - (153 * mp + 2) / 5 + 1;
    let m: u64 = if mp < 10 {
        mp + 3
    } else {
        mp - 9
    };
    let y: i64 = (yoe as i64) + era * 400 + (if m <= 2 {
        1i64
    } else {
        0i64
    });
    proof {
        let day = epoch_secs as int / 86400;
        assert(civil_from_days(day) == (y as int, m as int, d as int));
        lemma_date_of_day(day);
    }
    let mut out: Vec<char> = Vec::new();
    push_iso(&mut out, y, m as i64, d as i64);
    string_of(out.as_slice())
}

proof fn lemma_year_of_era(doe: int)
    requires
        0 <= doe < 146097,
    ensures
        ({
            let yoe = (doe - doe / 1460 + doe / 36524 - doe / 146096) / 365;
            let doy = doe - (365 * yoe + yoe / 4 - yoe / 100);
            &&& 0 <= yoe <= 399
            &&& 0 <= doy <= 365
            &&& doy == 365 ==> ((yoe + 1) % 4 == 0 && ((yoe + 1) % 100 != 0 || yoe == 399))
        }),
{
}

/// Is `y` a leap year of the proleptic Gregorian calendar?
pub open spec fn is_leap(y: int) -> bool {
    (y % 4 == 0 && y % 100 != 0) || y % 400 == 0
}

/// How many days month `m` of year `y` has.
pub open spec fn days_in_month(y: int, m: int) -> int {
    if m == 2 {
        if is_leap(y) {
            29
        } else {
            28
        }
    } else if m == 4 || m == 6 || m == 9 || m == 11 {
        30
    } else {
        31
    }
}

/// Is `(y, m, d)` a date of the calendar?
pub open spec fn is_valid_date(y: int, m: int, d: int) -> bool {
    1 <= m <= 12 && 1 <= d <= days_in_month(y, m)
}

/// How many leap years lie in `[1, y)` (negative for `y < 1`, so that differences count
/// the leap years between any two years).
pub open spec fn leaps_before(y: int) -> int {
    (y - 1) / 4 - (y - 1) / 100 + (y - 1) / 400
}

/// Days from 1970-01-01 to January 1 of year `y`.
pub open spec fn days_before_year(y: int) -> int {
    365 * (y - 1970) + leaps_before(y) - leaps_before(1970)
}

/// Days from January 1 of year `y` to the first of month `m`.
pub open spec fn days_before_month(y: int, m: int) -> int {
    (if m == 1 {
        0int
    } else if m == 2 {
        31
    } else if m == 3 {
        59
    } else if m == 4 {
        90
    } else if m == 5 {
        120
    } else if m == 6 {
        151
    } else if m == 7 {
        181
    } else if m == 8 {
        212
    } else if m == 9 {
        243
    } else if m == 10 {
        273
    } else if m == 11 {
        304
    } else {
        334
    }) + (if m > 2 && is_leap(y) {
        1int
    } else {
        0int
    })
}

/// The number of days from 1970-01-01 to the date `(y, m, d)`.
pub open spec fn days_from_civil(y: int, m: int, d: int) -> int {
    days_before_year(y) + days_before_month(y, m) + d - 1
}

proof fn lemma_month_of_year(doy: int)
    requires
        0 <= doy <= 365,
    ensures
        ({
            let mp = (5 * doy + 2) / 153;
            let d = doy - (153 * mp + 2) / 5 + 1;
            &&& 0 <= mp <= 11
            &&& 1 <= d
            &&& (mp == 0 || mp == 2 || mp == 4 || mp == 5 || mp == 7 || mp == 9 || mp == 10) ==> d <= 31
            &&& (mp == 1 || mp == 3 || mp == 6 || mp == 8) ==> d <= 30
            &&& mp == 11 ==> d <= 29 && (d == 29 ==> doy == 365)
        }),
{
}

proof fn lemma_leap_count(y: int)
    ensures
        leaps_before(y) + (if is_leap(y) {
            1int
        } else {
            0int
        }) == y / 4 - y / 100 + y / 400,
        leaps_before(y + 1) == y / 4 - y / 100 + y / 400,
{
}

proof fn lemma_era_shift(yoe: int, era: int)
    requires
        0 <= yoe < 400,
    ensures
        (yoe + era * 400) / 4 == yoe / 4 + era * 100,
        (yoe + era * 400) / 100 == yoe / 100 + era * 4,
        (yoe + era * 400) / 400 == era,
        is_leap(yoe + era * 400 + 1) == is_leap(yoe + 1),
{
    assert((yoe + era * 400) % 4 == yoe % 4);
    assert((yoe + era * 400 + 1) % 4 == (yoe + 1) % 4);
    assert((yoe + era * 400 + 1) % 100 == (yoe + 1) % 100);
    assert((yoe + era * 400 + 1) % 400 == (yoe + 1) % 400);
}

proof fn lemma_days_identity(yy: int, mp: int, d: int, doy: int, z: int)
    requires
        0 <= mp <= 11,
        doy == (153 * mp + 2) / 5 + d - 1,
        z == 365 * yy + yy / 4 - yy / 100 + yy / 400 + doy,
    ensures
        ({
            let m = if mp < 10 {
                mp + 3
            } else {
                mp - 9
            };
            let y = yy + (if m <= 2 {
                1int
            } else {
                0int
            });
            days_from_civil(y, m, d) == z - 719468
        }),
{
    lemma_leap_count(yy);
    assert(leaps_before(1970) == 477);
    if mp < 10 {
        assert(days_before_month(yy, mp + 3) == 59 + (153 * mp + 2) / 5 + (if is_leap(yy) {
            1int
        } else {
            0int
        }));
    } else {
        assert(days_before_month(yy + 1, mp - 9) == (153 * mp + 2) / 5 - 306);
    }
}

/// The date printed for a day is a real calendar date, and it is that day: counting the days
/// from 1970-01-01 to it gives back the day it was computed from.
pub proof fn lemma_civil_from_days(days: int)
    ensures
        ({
            let (y, m, d) = civil_from_days(days);
            is_valid_date(y, m, d) && days_from_civil(y, m, d) == days
        }),
{
    let z = days + 719468;
    let era = z / 146097;
    let doe = z % 146097;
    let yoe = (doe - doe / 1460 + doe / 36524 - doe / 146096) / 365;
    let doy = doe - (365 * yoe + yoe / 4 - yoe / 100);
    let mp = (5 * doy + 2) / 153;
    let d = doy - (153 * mp + 2) / 5 + 1;
    let m = if mp < 10 {
        mp + 3
    } else {
        mp - 9
    };
    let yy = yoe + era * 400;
    let y = yy + (if m <= 2 {
        1int
    } else {
        0int
    });
    assert(civil_from_days(days) == (y, m, d));
    lemma_year_of_era(doe);
    lemma_month_of_year(doy);
    lemma_era_shift(yoe, era);
    assert(z == era * 146097 + doe);
    assert(z == 365 * yy + yy / 4 - yy / 100 + yy / 400 + doy);
    assert(is_valid_date(y, m, d)) by {
        if mp == 11 && d == 29 {
            assert(is_leap(yoe + 1));
        }
    }
    lemma_days_identity(yy, mp, d, doy, z);
}

proof fn lemma_year_length(y: int)
    ensures
        days_before_year(y + 1) == days_before_year(y) + 365 + (if is_leap(y) {
            1int
        } else {
            0int
        }),
{
    lemma_leap_count(y);
}

proof fn lemma_years_apart(y1: int, y2: int)
    requires
        y1 < y2,
    ensures
        days_before_year(y2) >= days_before_year(y1) + 365 + (if is_leap(y1) {
            1int
        } else {
            0int
        }),
    decreases y2 - y1,
{
    lemma_year_length(y1);
    if y2 > y1 + 1 {
        lemma_years_apart(y1 + 1, y2);
        lemma_year_length(y1 + 1);
    }
}

proof fn lemma_day_of_year_range(y: int, m: int, d: int)
    requires
        is_valid_date(y, m, d),
    ensures
        0 <= days_before_month(y, m) + d - 1 < 365 + (if is_leap(y) {
            1int
        } else {
            0int
        }),
{
}

proof fn lemma_months_apart(y: int, m1: int, d1: int, m2: int, d2: int)
    requires
        is_valid_date(y, m1, d1),
        is_valid_date(y, m2, d2),
        m1 < m2,
    ensures
        days_before_month(y, m1) + d1 < days_before_month(y, m2) + d2,
{
}

/// A day has one date: any calendar date that counts to `days` from 1970-01-01 is the one
/// `civil_from_days` computes, so the printed date is determined by the day alone.
pub proof fn lemma_civil_unique(days: int, y: int, m: int, d: int)
    requires
        is_valid_date(y, m, d),
        days_from_civil(y, m, d) == days,
    ensures
        civil_from_days(days) == (y, m, d),
{
    lemma_civil_from_days(days);
    let (y2, m2, d2) = civil_from_days(days);
    lemma_day_of_year_range(y, m, d);
    lemma_day_of_year_range(y2, m2, d2);
    if y < y2 {
        lemma_years_apart(y, y2);
    } else if y2 < y {
        lemma_years_apart(y2, y);
    }
    assert(y == y2);
    if m < m2 {
        lemma_months_apart(y, m, d, m2, d2);
    } else if m2 < m {
        lemma_months_apart(y, m2, d2, m, d);
    }
    assert(m == m2);
}

/// The label of mock row `i` of `days`, counting back one day per row from 2026-07-01 in
/// flat 30-day months: row `days - 1` is 2026-07-01, the row before it 2026-06-30.
pub open spec fn mock_date_of(i: int, days: int) -> Seq<char> {
    let k = days - 1 - i + 29;
    let m0 = 7 - k / 30;
    iso_text(2026 + (m0 - 1) / 12, (m0 - 1) % 12 + 1, 30 - k % 30)
}

/// A synthetic ISO date for mock row `i` of `days`: counts back from a fixed anchor so runs
/// are identical regardless of the wall clock (2026-07-01 is the newest mock day).
pub fn mock_date(i: usize, days: usize) -> (r: String)
    requires
        i < days,
    ensures
        r@ == mock_date_of(i as int, days as int),
{
    // Flat 30-day months are fine for fixture labels.
    let k: u128 = (days - 1 - i) as u128 + 29;
    let months_back: u128 = k / 30;
    let day_in_month: u128 = 30 - (k % 30);
    let mut y: i128 = 2026;
    let mut m: i128 = 7 - (months_back as i128);
    let ghost m0: int = m as int;
    while m < 1
        invariant
            m0 == 7 - k / 30,
            y * 12 + m == 2026 * 12 + m0,
            m0 <= m <= 12,
            y <= 2026,
        decreases 12 - m,
    {
        m = m + 12;
        y = y - 1;
    }
    assert(y == 2026 + (m0 - 1) / 12 && m == (m0 - 1) % 12 + 1);
    let mut out: Vec<char> = Vec::new();
    push_iso(&mut out, y as i64, m as i64, day_in_month as i64);
    string_of(out.as_slice())
}


/// The date of a day is the one `civil_from_days` computes, a valid date that counts to it.
proof fn lemma_date_of_day(day: int)
    ensures
        date_of_day(day) == civil_from_days(day),
        is_valid_date(date_of_day(day).0, date_of_day(day).1, date_of_day(day).2),
        days_from_civil(date_of_day(day).0, date_of_day(day).1, date_of_day(day).2) == day,
{
    lemma_civil_from_days(day);
    let t = civil_from_days(day);
    assert(is_valid_date(t.0, t.1, t.2) && days_from_civil(t.0, t.1, t.2) == day);
    let c = date_of_day(day);
    lemma_civil_unique(day, c.0, c.1, c.2);
}

/// Is date `(y1, m1, d1)` earlier in the calendar than `(y2, m2, d2)`?
pub open spec fn date_before(y1: int, m1: int, d1: int, y2: int, m2: int, d2: int) -> bool {
    y1 < y2 || (y1 == y2 && (m1 < m2 || (m1 == m2 && d1 < d2)))
}

/// An earlier date counts fewer days from 1970-01-01.
proof fn lemma_days_increase(y1: int, m1: int, d1: int, y2: int, m2: int, d2: int)
    requires
        is_valid_date(y1, m1, d1),
        is_valid_date(y2, m2, d2),
        date_before(y1, m1, d1, y2, m2, d2),
    ensures
        days_from_civil(y1, m1, d1) < days_from_civil(y2, m2, d2),
{
    lemma_day_of_year_range(y1, m1, d1);
    lemma_day_of_year_range(y2, m2, d2);
    if y1 < y2 {
        lemma_years_apart(y1, y2);
    } else if m1 < m2 {
        lemma_months_apart(y1, m1, d1, m2, d2);
    }
}

/// The ten characters of a date of the years 0 through 9999: four year digits, a dash, two
/// month digits, a dash, two day digits.
proof fn lemma_iso_text_digits(y: int, m: int, d: int)
    requires
        0 <= y <= 9999,
        is_valid_date(y, m, d),
    ensures
        iso_text(y, m, d) == four_digits(y) + seq!['-'] + two_digits(m) + seq!['-'] + two_digits(d),
{
    lemma_padded_four(y);
    lemma_padded_two(m);
    lemma_padded_two(d);
}

/// The digits of a year, a month and a day, in the order the text writes them.
spec fn date_digits(y: int, m: int, d: int) -> Seq<int> {
    seq![y / 1000, y / 100 % 10, y / 10 % 10, y % 10, m / 10, m % 10, d / 10, d % 10]
}

/// The number eight decimal digits spell, most significant first.
spec fn digits_value(p: Seq<int>) -> int {
    10000000 * p[0] + 1000000 * p[1] + 100000 * p[2] + 10000 * p[3] + 1000 * p[4] + 100 * p[5]
        + 10 * p[6] + p[7]
}

/// Of two eight-digit numerals, the smaller number has the smaller digit where they first differ.
proof fn lemma_first_digit(p: Seq<int>, q: Seq<int>)
    requires
        p.len() == 8,
        q.len() == 8,
        forall|j: int| 0 <= j < 8 ==> 0 <= #[trigger] p[j] <= 9,
        forall|j: int| 0 <= j < 8 ==> 0 <= #[trigger] q[j] <= 9,
        digits_value(p) < digits_value(q),
    ensures
        exists|k: int| 0 <= k < 8 && p[k] < q[k] && forall|j: int| 0 <= j < k ==> p[j] == q[j],
{
    let (p0, p1, p2, p3, p4, p5, p6, p7) = (p[0], p[1], p[2], p[3], p[4], p[5], p[6], p[7]);
    let (q0, q1, q2, q3, q4, q5, q6, q7) = (q[0], q[1], q[2], q[3], q[4], q[5], q[6], q[7]);
    let k: int = if p0 != q0 {
        0
    } else if p1 != q1 {
        1
    } else if p2 != q2 {
        2
    } else if p3 != q3 {
        3
    } else if p4 != q4 {
        4
    } else if p5 != q5 {
        5
    } else if p6 != q6 {
        6
    } else {
        7
    };
    assert(p[k] < q[k]);
    assert(forall|j: int| 0 <= j < k ==> p[j] == q[j]);
}

/// The digits of a date spell `y * 10000 + m * 100 + d`, each a decimal digit.
proof fn lemma_date_digits(y: int, m: int, d: int)
    requires
        0 <= y <= 9999,
        0 <= m <= 99,
        0 <= d <= 99,
    ensures
        date_digits(y, m, d).len() == 8,
        forall|j: int| 0 <= j < 8 ==> 0 <= #[trigger] date_digits(y, m, d)[j] <= 9,
        digits_value(date_digits(y, m, d)) == 10000 * y + 100 * m + d,
{
    assert(y == 1000 * (y / 1000) + 100 * (y / 100 % 10) + 10 * (y / 10 % 10) + y % 10
        && 0 <= y / 1000 <= 9) by (nonlinear_arith)
        requires
            0 <= y <= 9999,
    ;
    assert(m == 10 * (m / 10) + m % 10 && 0 <= m / 10 <= 9) by (nonlinear_arith)
        requires
            0 <= m <= 99,
    ;
    assert(d == 10 * (d / 10) + d % 10 && 0 <= d / 10 <= 9) by (nonlinear_arith)
        requires
            0 <= d <= 99,
    ;
}

/// Each character of a date's text: its eight digits around the two dashes.
proof fn lemma_iso_chars(y: int, m: int, d: int)
    requires
        0 <= y <= 9999,
        is_valid_date(y, m, d),
    ensures
        ({
            let a = iso_text(y, m, d);
            let p = date_digits(y, m, d);
            &&& a.len() == 10
            &&& a[0] == digit(p[0]) && a[1] == digit(p[1]) && a[2] == digit(p[2]) && a[3] == digit(p[3])
            &&& a[4] == '-'
            &&& a[5] == digit(p[4]) && a[6] == digit(p[5])
            &&& a[7] == '-'
            &&& a[8] == digit(p[6]) && a[9] == digit(p[7])
        }),
{
    lemma_iso_text_digits(y, m, d);
}

/// Does `a` write the eight digits `p` around dashes at positions 4 and 7?
spec fn spells_digits(a: Seq<char>, p: Seq<int>) -> bool {
    &&& a.len() == 10
    &&& p.len() == 8
    &&& forall|j: int| 0 <= j < 8 ==> 0 <= #[trigger] p[j] <= 9
    &&& a[0] == digit(p[0]) && a[1] == digit(p[1]) && a[2] == digit(p[2]) && a[3] == digit(p[3])
    &&& a[4] == '-'
    &&& a[5] == digit(p[4]) && a[6] == digit(p[5])
    &&& a[7] == '-'
    &&& a[8] == digit(p[6]) && a[9] == digit(p[7])
}

/// Two such texts sort as the numbers their digits spell.
proof fn lemma_spelled_order(a: Seq<char>, b: Seq<char>, p: Seq<int>, q: Seq<int>)
    requires
        spells_digits(a, p),
        spells_digits(b, q),
        digits_value(p) < digits_value(q),
    ensures
        lex_lt(a, b),
{
    lemma_first_digit(p, q);
    let k: int = choose|k: int| 0 <= k < 8 && p[k] < q[k] && forall|j: int| 0 <= j < k ==> p[j] == q[j];
    assert forall|j: int| 0 <= j < 8 implies (digit(p[j]) == digit(q[j])) == (p[j] == q[j])
        && (digit(p[j]) < digit(q[j])) == (p[j] < q[j]) by {
        lemma_digit_order(p[j], q[j]);
    }
    // The position in the text of digit `k`.
    let pos: int = if k < 4 {
        k
    } else if k < 6 {
        k + 1
    } else {
        k + 2
    };
    assert(a[pos] < b[pos]) by {
        assert(p[k] < q[k]);
    }
    assert forall|i: int| 0 <= i < pos implies a[i] == b[i] by {
        if i < 4 {
            assert(p[i] == q[i]);
        } else if i == 5 || i == 6 {
            assert(p[i - 1] == q[i - 1]);
        } else if i == 8 {
            assert(p[6] == q[6]);
        }
    }
    lemma_lex_at(a, b, pos);
}

/// A date's text spells its digits.
proof fn lemma_iso_spells(y: int, m: int, d: int)
    requires
        0 <= y <= 9999,
        is_valid_date(y, m, d),
    ensures
        spells_digits(iso_text(y, m, d), date_digits(y, m, d)),
        digits_value(date_digits(y, m, d)) == 10000 * y + 100 * m + d,
{
    lemma_iso_text_digits(y, m, d);
    lemma_date_digits(y, m, d);
}

/// An earlier date of the years 0 through 9999 has its text sort first.
proof fn lemma_iso_text_order(y1: int, m1: int, d1: int, y2: int, m2: int, d2: int)
    requires
        0 <= y1 <= 9999,
        0 <= y2 <= 9999,
        is_valid_date(y1, m1, d1),
        is_valid_date(y2, m2, d2),
        date_before(y1, m1, d1, y2, m2, d2),
    ensures
        lex_lt(iso_text(y1, m1, d1), iso_text(y2, m2, d2)),
{
    lemma_iso_spells(y1, m1, d1);
    lemma_iso_spells(y2, m2, d2);
    lemma_spelled_order(iso_text(y1, m1, d1), iso_text(y2, m2, d2), date_digits(y1, m1, d1), date_digits(y2, m2, d2));
}

/// What a date stamp prints, for stamps whose UTC dates fall in the years 0 through 9999:
/// every second of a day prints that day's date; the text is `YYYY-MM-DD`, four year digits,
/// a dash, two month digits, a dash and two day digits, of a valid month and day; and a later
/// day prints a text that sorts after an earlier day's.
pub proof fn lemma_iso_date_order(s1: int, s2: int)
    requires
        0 <= date_of_day(s1 / 86400).0 <= 9999,
        0 <= date_of_day(s2 / 86400).0 <= 9999,
    ensures
        iso_date_of(s1) == iso_date_of(86400 * (s1 / 86400)),
        ({
            let (y, m, d) = date_of_day(s1 / 86400);
            &&& is_valid_date(y, m, d)
            &&& iso_date_of(s1) == four_digits(y) + seq!['-'] + two_digits(m) + seq!['-'] + two_digits(d)
        }),
        forall|i: int| 0 <= i < 10 && i != 4 && i != 7 ==> '0' <= #[trigger] iso_date_of(s1)[i] <= '9',
        iso_date_of(s1).len() == 10 && iso_date_of(s1)[4] == '-' && iso_date_of(s1)[7] == '-',
        s1 / 86400 < s2 / 86400 ==> lex_lt(iso_date_of(s1), iso_date_of(s2)),
{
    let day1 = s1 / 86400;
    let day2 = s2 / 86400;
    assert((86400 * day1) / 86400 == day1) by (nonlinear_arith);
    lemma_date_of_day(day1);
    lemma_date_of_day(day2);
    let (y1, m1, d1) = date_of_day(day1);
    let (y2, m2, d2) = date_of_day(day2);
    lemma_iso_text_digits(y1, m1, d1);
    let t = iso_date_of(s1);
    assert forall|i: int| 0 <= i < 10 && i != 4 && i != 7 implies '0' <= #[trigger] t[i] <= '9' by {
        lemma_digit_order(y1 / 1000, 0);
        lemma_digit_order(y1 / 100 % 10, 0);
        lemma_digit_order(y1 / 10 % 10, 0);
        lemma_digit_order(y1 % 10, 0);
        lemma_digit_order(m1 / 10, 0);
        lemma_digit_order(m1 % 10, 0);
        lemma_digit_order(d1 / 10, 0);
        lemma_digit_order(d1 % 10, 0);
    }
    if day1 < day2 {
        if !date_before(y1, m1, d1, y2, m2, d2) {
            if date_before(y2, m2, d2, y1, m1, d1) {
                lemma_days_increase(y2, m2, d2, y1, m1, d1);
            }
            assert(y1 == y2 && m1 == m2 && d1 == d2);
        }
        lemma_iso_text_order(y1, m1, d1, y2, m2, d2);
    }
}

} // verus!
