use vstd::prelude::*;

use crate::size::extend_chars;
use crate::text::{decimal, decimal_chars, digit_char, string_of};

verus! {

/// Integer division rounding toward zero (Rust's `/` on signed integers),
/// for a positive divisor.
pub open spec fn tdiv(a: int, b: int) -> int {
    if a >= 0 {
        a / b
    } else {
        -((-a) / b)
    }
}

/// The calendar date of Julian day number `jd` by the Fliegel–Van Flandern
/// algorithm, in integer arithmetic that rounds toward zero; the year is
/// taken as an `i32` and the month and day as `u32`s, each truncated to its
/// width.
pub open spec fn julian_ymd(jd: int) -> (i32, u32, u32) {
    let l1 = jd + 68569;
    let n = tdiv(4 * l1, 146097);
    let l2 = l1 - tdiv(146097 * n + 3, 4);
    let i = tdiv(4000 * (l2 + 1), 1461001);
    let l3 = l2 - tdiv(1461 * i, 4) + 31;
    let j = tdiv(80 * l3, 2447);
    let day = l3 - tdiv(2447 * j, 80);
    let l4 = tdiv(j, 11);
    let month = j + 2 - 12 * l4;
    let year = 100 * (n - 49) + i + l4;
    (year as i32, month as u32, day as u32)
}

/// From Julian day -68599 on (about 4900 BC), every day number gives a
/// month from 1 to 12 and a day of the month from 1 to 31.
pub proof fn law_julian_fields(jd: int)
    requires
        -68599 <= jd,
    ensures
        1 <= julian_ymd(jd).1 <= 12,
        1 <= julian_ymd(jd).2 <= 31,
{
    let l1 = jd + 68569;
    if l1 < 0 {
        assert(tdiv(4 * l1, 146097) == 0);
        assert(tdiv(3, 4) == 0);
        assert(tdiv(4000 * (l1 + 1), 1461001) == 0);
        assert(tdiv(0, 4) == 0);
        assert(tdiv(80 * (l1 + 31), 2447) == 0);
        assert(tdiv(0, 80) == 0);
        assert(tdiv(0, 11) == 0);
        assert(julian_ymd(jd).1 == 2);
        assert(julian_ymd(jd).2 == (l1 + 31) as u32);
    } else {
        let n = (4 * l1) / 146097;
        assert(146097 * n <= 4 * l1 < 146097 * n + 146097);
        let t1 = (146097 * n + 3) / 4;
        let l2 = l1 - t1;
        assert(0 <= l2 <= 36524);
        let i = (4000 * (l2 + 1)) / 1461001;
        assert(1461001 * i <= 4000 * (l2 + 1) < 1461001 * i + 1461001);
        assert(0 <= i <= 99);
        let t2 = (1461 * i) / 4;
        assert(4 * t2 <= 1461 * i < 4 * t2 + 4);
        let l3 = l2 - t2 + 31;
        assert(31 <= l3 <= 397);
        let j = (80 * l3) / 2447;
        assert(2447 * j <= 80 * l3 < 2447 * j + 2447);
        assert(1 <= j <= 12);
        let t3 = (2447 * j) / 80;
        assert(80 * t3 <= 2447 * j < 80 * t3 + 80);
        let day = l3 - t3;
        assert(1 <= day <= 31);
        let l4 = j / 11;
        let month = j + 2 - 12 * l4;
        assert(1 <= month <= 12);
        assert(julian_ymd(jd).1 == month as u32);
        assert(julian_ymd(jd).2 == day as u32);
    }
}

/// The Julian day number of 1970-01-01.
pub open spec fn unix_epoch_jd() -> int {
    2440588
}

/// `v` written with at least `width` characters, zeros placed after the sign
/// (Rust's `{:0width$}`).
pub open spec fn zero_padded(v: int, width: nat) -> Seq<char> {
    let digits = if v < 0 {
        decimal((-v) as nat)
    } else {
        decimal(v as nat)
    };
    let sign: Seq<char> = if v < 0 {
        seq!['-']
    } else {
        Seq::empty()
    };
    let used = sign.len() + digits.len();
    let pad: nat = if used < width {
        (width - used) as nat
    } else {
        0
    };
    sign + Seq::new(pad, |_k: int| '0') + digits
}

/// The date `days` days after 1970-01-01, as `YYYY-MM-DD`.
pub open spec fn date_text(days: i32) -> Seq<char> {
    let (y, m, d) = julian_ymd(days + unix_epoch_jd());
    zero_padded(y as int, 4) + seq!['-'] + zero_padded(m as int, 2) + seq!['-'] + zero_padded(d as int, 2)
}

/// The date of a count of milliseconds since the epoch, from the whole days
/// it holds (rounded toward zero, then truncated to an `i32`).
pub open spec fn date64_text(ms: i64) -> Seq<char> {
    date_text(tdiv(ms as int, 86_400_000) as i32)
}

/// A timestamp `v` in units of `1 / per_sec` seconds since the epoch, as
/// `YYYY-MM-DD HH:MM:SS` followed, when `frac_width > 0`, by a dot and the
/// fraction of the second in `frac_width` digits. Days are counted by
/// flooring division and truncated to an `i32`.
pub open spec fn timestamp_text(v: int, per_sec: int, frac_width: nat) -> Seq<char> {
    let per_day = 86400 * per_sec;
    let days = (v / per_day) as i32;
    let rem = v % per_day;
    let h = rem / (3600 * per_sec);
    let m = (rem % (3600 * per_sec)) / (60 * per_sec);
    let s = (rem % (60 * per_sec)) / per_sec;
    let frac = rem % per_sec;
    date_text(days) + seq![' '] + zero_padded(h, 2) + seq![':'] + zero_padded(m, 2) + seq![':']
        + zero_padded(s, 2) + if frac_width > 0 {
        seq!['.'] + zero_padded(frac, frac_width)
    } else {
        Seq::empty()
    }
}

// ---------------------------------------------------------------------------
// The calendar that Julian day numbers are mapped to
// ---------------------------------------------------------------------------

/// Gregorian leap years.
pub open spec fn is_leap(y: int) -> bool {
    y % 4 == 0 && (y % 100 != 0 || y % 400 == 0)
}

/// The number of days in month `m` of year `y`.
pub open spec fn days_in_month(y: int, m: int) -> int {
    if m == 2 {
        if is_leap(y) {
            29
        } else {
            28
        }
    } else if m == 4 || m == 6 || m == 9 || m == 11 {
        30
    } else {
        31
    }
}

/// The date after `d`-`m`-`y`.
pub open spec fn next_day(y: int, m: int, d: int) -> (int, int, int) {
    if d < days_in_month(y, m) {
        (y, m, d + 1)
    } else if m < 12 {
        (y, m + 1, 1)
    } else {
        (y + 1, 1, 1)
    }
}

/// Day `e` of a year counted from 1 March: its month index from March on,
/// its month, its day of the month, and whether it falls in January or
/// February (1) or not (0).
spec fn march_j(e: int) -> int {
    (80 * (e + 31)) / 2447
}

spec fn march_day(e: int) -> int {
    (e + 31) - (2447 * march_j(e)) / 80
}

spec fn march_month(e: int) -> int {
    march_j(e) + 2 - 12 * (march_j(e) / 11)
}

spec fn march_late(e: int) -> int {
    march_j(e) / 11
}

/// What holds of each day of a year counted from 1 March.
spec fn month_fact(e: int) -> bool {
    &&& 1 <= march_month(e) <= 12
    &&& 1 <= march_day(e)
    &&& (e <= 364 ==> march_day(e) <= days_in_month(1, march_month(e)))
    &&& (e == 364 ==> march_month(e) == 2 && march_day(e) == 28)
    &&& (e == 365 ==> march_month(e) == 2 && march_day(e) == 29)
    &&& (e == 0 ==> march_month(e) == 3 && march_day(e) == 1)
    &&& march_late(e) == (if march_month(e) <= 2 {
        1int
    } else {
        0int
    })
}

/// How a day of a year counted from 1 March, other than its last two,
/// leads to the next.
spec fn step_fact(e: int) -> bool {
    let m = march_month(e);
    let d = march_day(e);
    if d < days_in_month(1, m) {
        march_month(e + 1) == m && march_day(e + 1) == d + 1
    } else if m < 12 {
        march_month(e + 1) == m + 1 && march_day(e + 1) == 1
    } else {
        march_month(e + 1) == 1 && march_day(e + 1) == 1
    }
}

/// The month index of day `e` of a year counted from 1 March.
proof fn lemma_march_j(e: int)
    requires
        0 <= e <= 366,
    ensures
        march_j(e) == (if e <= 30 {
            1int
        } else if e <= 60 {
            2int
        } else if e <= 91 {
            3int
        } else if e <= 121 {
            4int
        } else if e <= 152 {
            5int
        } else if e <= 183 {
            6int
        } else if e <= 213 {
            7int
        } else if e <= 244 {
            8int
        } else if e <= 274 {
            9int
        } else if e <= 305 {
            10int
        } else if e <= 336 {
            11int
        } else {
            12int
        }),
{
    let j: int = if e <= 30 {
        1
    } else if e <= 60 {
        2
    } else if e <= 91 {
        3
    } else if e <= 121 {
        4
    } else if e <= 152 {
        5
    } else if e <= 183 {
        6
    } else if e <= 213 {
        7
    } else if e <= 244 {
        8
    } else if e <= 274 {
        9
    } else if e <= 305 {
        10
    } else if e <= 336 {
        11
    } else {
        12
    };
    vstd::arithmetic::div_mod::lemma_fundamental_div_mod_converse(80 * (e + 31), 2447, j, 80 * (e + 31) - 2447 * j);
}

proof fn lemma_march_days(e: int)
    requires
        0 <= e <= 365,
    ensures
        month_fact(e),
        e <= 363 ==> step_fact(e),
{
    lemma_march_j(e);
    lemma_march_j(e + 1);
}

/// The first day, counted from day number -68569, of the `n`th century
/// counted from 1 March 4801 BC (4800 BC astronomically), in which every
/// fourth century, starting with the first, has a leap day more.
spec fn century_start(n: int) -> int {
    (146097 * n + 3) / 4
}

/// The first day of the `i`th year, counted from 1 March, of a century.
spec fn year_start(i: int) -> int {
    (1461 * i) / 4
}

proof fn lemma_century_start(n: int)
    requires
        n >= 0,
    ensures
        century_start(n) == 36524 * n + (n + 3) / 4,
        century_start(n + 1) - century_start(n) == 36524 + (if n % 4 == 0 {
            1int
        } else {
            0int
        }),
{
    vstd::arithmetic::div_mod::lemma_fundamental_div_mod_converse(
        146097 * n + 3,
        4,
        36524 * n + (n + 3) / 4,
        (n + 3) % 4,
    );
    vstd::arithmetic::div_mod::lemma_fundamental_div_mod_converse(
        146097 * (n + 1) + 3,
        4,
        36524 * (n + 1) + (n + 4) / 4,
        (n + 4) % 4,
    );
}

/// The century of day `l1` and its bounds.
proof fn lemma_century_of(l1: int)
    requires
        l1 >= 0,
    ensures
        (4 * l1) / 146097 >= 0,
        century_start((4 * l1) / 146097) <= l1 < century_start((4 * l1) / 146097 + 1),
{
    let n = (4 * l1) / 146097;
    vstd::arithmetic::div_mod::lemma_fundamental_div_mod(4 * l1, 146097);
    vstd::arithmetic::div_mod::lemma_fundamental_div_mod(146097 * n + 3, 4);
    vstd::arithmetic::div_mod::lemma_fundamental_div_mod(146097 * (n + 1) + 3, 4);
}

/// A day within the bounds of century `m` lies in that century.
proof fn lemma_century_unique(l1: int, m: int)
    requires
        m >= 0,
        century_start(m) <= l1 < century_start(m + 1),
    ensures
        (4 * l1) / 146097 == m,
{
    vstd::arithmetic::div_mod::lemma_fundamental_div_mod(146097 * m + 3, 4);
    vstd::arithmetic::div_mod::lemma_fundamental_div_mod(146097 * (m + 1) + 3, 4);
    vstd::arithmetic::div_mod::lemma_fundamental_div_mod_converse(4 * l1, 146097, m, 4 * l1 - 146097 * m);
}

proof fn lemma_year_start(i: int)
    requires
        i >= 0,
    ensures
        year_start(i) == 365 * i + i / 4,
        year_start(i + 1) - year_start(i) == 365 + (if (i + 1) % 4 == 0 {
            1int
        } else {
            0int
        }),
{
    vstd::arithmetic::div_mod::lemma_fundamental_div_mod_converse(1461 * i, 4, 365 * i + i / 4, i % 4);
    vstd::arithmetic::div_mod::lemma_fundamental_div_mod_converse(
        1461 * (i + 1),
        4,
        365 * (i + 1) + (i + 1) / 4,
        (i + 1) % 4,
    );
}

/// Year starts grow with the year.
proof fn lemma_year_start_grows(a: int, b: int)
    requires
        0 <= a < b,
    ensures
        year_start(a) < year_start(b),
        year_start(a + 1) <= year_start(b),
{
    lemma_year_start(a);
    lemma_year_start(b);
    lemma_year_start(a + 1);
    assert(a / 4 <= b / 4) by {
        vstd::arithmetic::div_mod::lemma_div_is_ordered(a, b, 4);
    }
    assert((a + 1) / 4 <= b / 4) by {
        vstd::arithmetic::div_mod::lemma_div_is_ordered(a + 1, b, 4);
    }
}

/// The year within its century of day `l2` of the century, and its bounds.
proof fn lemma_year_of(l2: int)
    requires
        0 <= l2 <= 36524,
    ensures
        0 <= (4000 * (l2 + 1)) / 1461001 <= 99,
        year_start((4000 * (l2 + 1)) / 1461001) <= l2 < year_start((4000 * (l2 + 1)) / 1461001 + 1),
{
    let i = (4000 * (l2 + 1)) / 1461001;
    vstd::arithmetic::div_mod::lemma_fundamental_div_mod(4000 * (l2 + 1), 1461001);
    assert(0 <= i <= 99);
    vstd::arithmetic::div_mod::lemma_fundamental_div_mod(1461 * i, 4);
    vstd::arithmetic::div_mod::lemma_fundamental_div_mod(1461 * (i + 1), 4);
}

/// A day within the bounds of year `k` of a century lies in that year.
proof fn lemma_year_unique(l2: int, k: int)
    requires
        0 <= l2 <= 36524,
        0 <= k,
        year_start(k) <= l2 < year_start(k + 1),
    ensures
        (4000 * (l2 + 1)) / 1461001 == k,
{
    let i = (4000 * (l2 + 1)) / 1461001;
    lemma_year_of(l2);
    if i < k {
        lemma_year_start_grows(i, k);
    } else if i > k {
        lemma_year_start_grows(k, i);
    }
}

/// The date of day `l1` (a Julian day number plus 68569) as whole
/// numbers: year, month, day of the month.
spec fn civil(l1: int) -> (int, int, int) {
    let n = (4 * l1) / 146097;
    let l2 = l1 - century_start(n);
    let i = (4000 * (l2 + 1)) / 1461001;
    let e = l2 - year_start(i);
    (100 * (n - 49) + i + march_late(e), march_month(e), march_day(e))
}

/// Where day `l1` lies: its century, its year in the century and its day
/// in the year, with a 366th day of a year only in leap years.
proof fn lemma_day_place(l1: int)
    requires
        l1 >= 0,
    ensures
        ({
            let n = (4 * l1) / 146097;
            let l2 = l1 - century_start(n);
            let i = (4000 * (l2 + 1)) / 1461001;
            let e = l2 - year_start(i);
            &&& n >= 0
            &&& 0 <= l2 < century_start(n + 1) - century_start(n)
            &&& 0 <= i <= 99
            &&& year_start(i) <= l2 < year_start(i + 1)
            &&& 0 <= e <= 365
            &&& (e == 365 ==> is_leap(100 * (n - 49) + i + 1))
        }),
{
    let n = (4 * l1) / 146097;
    lemma_century_of(l1);
    lemma_century_start(n);
    let l2 = l1 - century_start(n);
    lemma_year_of(l2);
    let i = (4000 * (l2 + 1)) / 1461001;
    lemma_year_start(i);
    let e = l2 - year_start(i);
    if e == 365 {
        let y = 100 * (n - 49) + i + 1;
        assert((i + 1) % 4 == 0);
        if i < 99 {
            vstd::arithmetic::div_mod::lemma_fundamental_div_mod_converse(y, 100, n - 49, i + 1);
            vstd::arithmetic::div_mod::lemma_fundamental_div_mod_converse(y, 4, 25 * (n - 49) + (i + 1) / 4, 0);
        } else {
            lemma_year_start(99);
            assert(n % 4 == 0);
            vstd::arithmetic::div_mod::lemma_fundamental_div_mod_converse(y, 400, n / 4 - 12, 0);
            vstd::arithmetic::div_mod::lemma_fundamental_div_mod_converse(y, 4, 25 * (n - 48), 0);
        }
    }
}

/// The day after day `l1` is the next date, and each date's day lies
/// within its month.
proof fn lemma_civil_step(l1: int)
    requires
        l1 >= 0,
    ensures
        1 <= civil(l1).1 <= 12,
        1 <= civil(l1).2 <= days_in_month(civil(l1).0, civil(l1).1),
        civil(l1 + 1) == next_day(civil(l1).0, civil(l1).1, civil(l1).2),
{
    let n = (4 * l1) / 146097;
    let l2 = l1 - century_start(n);
    let i = (4000 * (l2 + 1)) / 1461001;
    let e = l2 - year_start(i);
    lemma_day_place(l1);
    lemma_day_place(l1 + 1);
    lemma_century_start(n);
    lemma_year_start(i);
    lemma_march_days(e);
    let (y, m, d) = civil(l1);
    let feb_year = 100 * (n - 49) + i + 1;
    if e == 365 {
        assert(is_leap(feb_year));
    }
    if l2 + 1 < century_start(n + 1) - century_start(n) {
        lemma_century_unique(l1 + 1, n);
        if l2 + 1 < year_start(i + 1) {
            lemma_year_unique(l2 + 1, i);
            lemma_march_days(e + 1);
            if e == 364 {
                assert(year_start(i + 1) - year_start(i) == 366);
                assert(is_leap(feb_year));
            }
        } else {
            lemma_year_start(i + 1);
            lemma_year_unique(l2 + 1, i + 1);
            lemma_march_days(0);
            assert(i + 1 < 100) by {
                lemma_year_start(99);
                if i + 1 >= 100 {
                    if i + 1 > 100 {
                        lemma_year_start_grows(100, i + 1);
                    }
                    lemma_year_start(100);
                }
            }
            if e == 364 {
                vstd::arithmetic::div_mod::lemma_fundamental_div_mod_converse(feb_year, 100, n - 49, i + 1);
                if feb_year % 4 == 0 {
                    assert((i + 1) % 4 == 0) by {
                        vstd::arithmetic::div_mod::lemma_fundamental_div_mod_converse(
                            feb_year,
                            4,
                            25 * (n - 49) + (i + 1) / 4,
                            (i + 1) % 4,
                        );
                    }
                }
                assert(!is_leap(feb_year));
            }
        }
    } else {
        lemma_century_start(n + 1);
        lemma_century_unique(l1 + 1, n + 1);
        lemma_year_unique(0, 0);
        lemma_march_days(0);
        lemma_year_start(99);
        lemma_year_unique(l2, 99);
        if e == 364 {
            assert(n % 4 != 0);
            assert(feb_year == 100 * (n - 48));
            vstd::arithmetic::div_mod::lemma_fundamental_div_mod_converse(feb_year, 100, n - 48, 0);
            if feb_year % 400 == 0 {
                assert(n % 4 == 0) by {
                    vstd::arithmetic::div_mod::lemma_fundamental_div_mod(feb_year, 400);
                    vstd::arithmetic::div_mod::lemma_fundamental_div_mod(n, 4);
                }
            }
            assert(!is_leap(feb_year));
        }
    }
}

/// For day numbers from 0 on, `julian_ymd` is `civil`, each part fitting
/// its type.
proof fn lemma_civil_matches(jd: int)
    requires
        0 <= jd <= 2_000_000_000,
    ensures
        -4900 <= civil(jd + 68569).0 <= 6_000_000,
        julian_ymd(jd) == (civil(jd + 68569).0 as i32, civil(jd + 68569).1 as u32, civil(jd + 68569).2 as u32),
{
    let l1 = jd + 68569;
    lemma_day_place(l1);
    lemma_civil_step(l1);
    let n = (4 * l1) / 146097;
    let l2 = l1 - century_start(n);
    let i = (4000 * (l2 + 1)) / 1461001;
    let e = l2 - year_start(i);
    lemma_march_days(e);
    assert(n <= 60000) by {
        vstd::arithmetic::div_mod::lemma_fundamental_div_mod(4 * l1, 146097);
    }
    assert(tdiv(4 * l1, 146097) == n);
    assert(tdiv(146097 * n + 3, 4) == century_start(n));
    assert(tdiv(4000 * (l2 + 1), 1461001) == i);
    assert(tdiv(1461 * i, 4) == year_start(i));
    assert(tdiv(80 * (e + 31), 2447) == march_j(e));
    assert(tdiv(2447 * march_j(e), 80) == (2447 * march_j(e)) / 80);
    assert(tdiv(march_j(e), 11) == march_late(e));
}

/// From day number 0 on (24 November 4714 BC in the proleptic Gregorian
/// calendar), each day number gives a valid date, and the next day number
/// gives the next date.
pub proof fn law_julian_calendar(jd: int)
    requires
        0 <= jd < 2_000_000_000,
    ensures
        ({
            let (y, m, d) = julian_ymd(jd);
            let (ny, nm, nd) = next_day(y as int, m as int, d as int);
            &&& 1 <= m <= 12
            &&& 1 <= d <= days_in_month(y as int, m as int)
            &&& julian_ymd(jd + 1) == (ny as i32, nm as u32, nd as u32)
        }),
{
    lemma_civil_matches(jd);
    lemma_civil_matches(jd + 1);
    lemma_civil_step(jd + 68569);
    assert(jd + 1 + 68569 == (jd + 68569) + 1);
}

// ---------------------------------------------------------------------------
// Laws relating the timestamp units
// ---------------------------------------------------------------------------

/// Dropping the last digit of a padded numeral: the numeral of `v / 10`
/// one narrower, then the last digit.
proof fn lemma_padded_step(v: int, w: nat)
    requires
        v >= 0,
        w >= 1,
        w >= 2 || v >= 10,
    ensures
        zero_padded(v, w) == zero_padded(v / 10, (w - 1) as nat).push(digit_char(v % 10)),
{
    if v >= 10 {
        let d = decimal(v as nat);
        assert(d == decimal((v / 10) as nat).push(digit_char(v % 10)));
        let pad: nat = if d.len() < w { (w - d.len()) as nat } else { 0 };
        assert(zero_padded(v, w) =~= (Seq::new(pad, |_k: int| '0') + decimal((v / 10) as nat)).push(digit_char(v % 10)));
    } else {
        assert(decimal(v as nat) == seq![digit_char(v)]);
        assert(decimal(0) == seq![digit_char(0)]);
        assert(digit_char(0) == '0');
        assert(zero_padded(v / 10, (w - 1) as nat) =~= Seq::new((w - 1) as nat, |_k: int| '0'));
        assert(zero_padded(v, w) =~= Seq::new((w - 1) as nat, |_k: int| '0').push(digit_char(v % 10)));
    }
}

/// A padded numeral of `a * 1000 + k` is that of `a` followed by the three
/// digits of `k`.
proof fn lemma_padded_split(a: int, k: int, w: nat)
    requires
        a >= 0,
        0 <= k < 1000,
        w >= 1,
    ensures
        zero_padded(a * 1000 + k, w + 3) == zero_padded(a, w) + zero_padded(k, 3),
{
    let v = a * 1000 + k;
    lemma_padded_step(v, w + 3);
    lemma_padded_step(v / 10, w + 2);
    lemma_padded_step(v / 100, w + 1);
    assert(v / 10 / 10 == v / 100);
    assert(v / 100 / 10 == a);
    assert(v % 10 == k % 10);
    assert((v / 10) % 10 == (k / 10) % 10);
    assert((v / 100) % 10 == k / 100);
    lemma_padded_step(k, 3);
    lemma_padded_step(k / 10, 2);
    assert(k / 10 / 10 == k / 100);
    assert(decimal((k / 100) as nat) == seq![digit_char(k / 100)]);
    assert(zero_padded(k / 100, 1) =~= seq![digit_char(k / 100)]);
    assert(zero_padded(v, w + 3) =~= zero_padded(a, w) + zero_padded(k, 3));
}

/// Dividing a value scaled by 1000 and given three more digits.
proof fn lemma_scaled_div(x: int, k: int, d: int)
    requires
        d > 0,
        0 <= k < 1000,
    ensures
        (x * 1000 + k) / (d * 1000) == x / d,
        (x * 1000 + k) % (d * 1000) == (x % d) * 1000 + k,
{
    let q = x / d;
    let r = x % d;
    vstd::arithmetic::div_mod::lemma_fundamental_div_mod(x, d);
    assert(x * 1000 + k == q * (d * 1000) + (r * 1000 + k)) by (nonlinear_arith)
        requires
            x == d * q + r,
    ;
    assert(0 <= r * 1000 + k < d * 1000) by (nonlinear_arith)
        requires
            0 <= r < d,
            0 <= k < 1000,
    ;
    vstd::arithmetic::div_mod::lemma_fundamental_div_mod_converse(x * 1000 + k, d * 1000, q, r * 1000 + k);
}

/// The parts of a timestamp in a unit a thousand times finer: the same day,
/// hour, minute and second, and the fraction with three more digits.
proof fn lemma_finer_parts(x: int, k: int, p: int)
    requires
        0 <= k < 1000,
        p >= 1,
    ensures
        ({
            let v = x * 1000 + k;
            let q = p * 1000;
            let r = x % (86400 * p);
            let rr = v % (86400 * q);
            &&& v / (86400 * q) == x / (86400 * p)
            &&& rr / (3600 * q) == r / (3600 * p)
            &&& (rr % (3600 * q)) / (60 * q) == (r % (3600 * p)) / (60 * p)
            &&& (rr % (60 * q)) / q == (r % (60 * p)) / p
            &&& rr % q == (r % p) * 1000 + k
            &&& r >= 0
        }),
{
    let q = p * 1000;
    let r = x % (86400 * p);
    assert(86400 * q == (86400 * p) * 1000);
    assert(3600 * q == (3600 * p) * 1000);
    assert(60 * q == (60 * p) * 1000);
    lemma_scaled_div(x, k, 86400 * p);
    lemma_scaled_div(r, k, 3600 * p);
    lemma_scaled_div(r, k, 60 * p);
    lemma_scaled_div(r, k, p);
    lemma_scaled_div(r % (3600 * p), k, 60 * p);
    lemma_scaled_div(r % (60 * p), k, p);
}

/// A timestamp in a unit a thousand times finer is written as the coarser
/// one followed by three more digits of the fraction.
#[verifier::rlimit(30)]
proof fn lemma_finer_unit(x: int, k: int, p: int, w: nat)
    requires
        0 <= k < 1000,
        p == 1 && w == 0 || p == 1000 && w == 3 || p == 1_000_000 && w == 6,
    ensures
        timestamp_text(x * 1000 + k, p * 1000, w + 3) == timestamp_text(x, p, w) + (if w == 0 {
            seq!['.']
        } else {
            Seq::empty()
        }) + zero_padded(k, 3),
{
    lemma_finer_parts(x, k, p);
    let r = x % (86400 * p);
    let frac = r % p;
    if w == 0 {
        assert(frac == 0);
    } else {
        lemma_padded_split(frac, k, w);
    }
    let fine = timestamp_text(x * 1000 + k, p * 1000, w + 3);
    let coarse = timestamp_text(x, p, w);
    assert(fine =~= coarse + (if w == 0 {
        seq!['.']
    } else {
        Seq::empty()
    }) + zero_padded(k, 3));
}

/// A time in milliseconds is written as its whole seconds followed by a dot
/// and the three digits of the milliseconds.
pub proof fn law_timestamp_ms_extends_s(s: int, k: int)
    requires
        0 <= k < 1000,
    ensures
        timestamp_text(s * 1000 + k, 1000, 3) == timestamp_text(s, 1, 0) + seq!['.'] + zero_padded(k, 3),
{
    lemma_finer_unit(s, k, 1, 0);
}

/// A time in microseconds is written as its whole milliseconds followed by
/// three more digits.
pub proof fn law_timestamp_us_extends_ms(ms: int, k: int)
    requires
        0 <= k < 1000,
    ensures
        timestamp_text(ms * 1000 + k, 1_000_000, 6) == timestamp_text(ms, 1000, 3) + zero_padded(k, 3),
{
    lemma_finer_unit(ms, k, 1000, 3);
    assert(timestamp_text(ms, 1000, 3) + Seq::<char>::empty() =~= timestamp_text(ms, 1000, 3));
}

/// A time in nanoseconds is written as its whole microseconds followed by
/// three more digits.
pub proof fn law_timestamp_ns_extends_us(us: int, k: int)
    requires
        0 <= k < 1000,
    ensures
        timestamp_text(us * 1000 + k, 1_000_000_000, 9) == timestamp_text(us, 1_000_000, 6) + zero_padded(k, 3),
{
    lemma_finer_unit(us, k, 1_000_000, 6);
    assert(timestamp_text(us, 1_000_000, 6) + Seq::<char>::empty() =~= timestamp_text(us, 1_000_000, 6));
}

/// Integer division rounding toward zero, with its bound.
fn div0(a: i128, b: i128) -> (q: i128)
    requires
        b >= 1,
        -0x1000_0000_0000_0000_0000 <= a <= 0x1000_0000_0000_0000_0000,
    ensures
        q == tdiv(a as int, b as int),
        -a <= q * b <= a || a <= q * b <= -a,
        a >= 0 ==> 0 <= q <= a,
        a < 0 ==> a <= q <= 0,
{
    if a >= 0 {
        let q = a / b;
        assert(q * b <= a && q >= 0 && q <= a) by (nonlinear_arith)
            requires
                a >= 0,
                b >= 1,
                q == a / b,
        ;
        q
    } else {
        let p = (-a) / b;
        assert(p * b <= -a && p >= 0 && p <= -a) by (nonlinear_arith)
            requires
                a < 0,
                b >= 1,
                p as int == (-(a as int)) / (b as int),
        ;
        assert((-p) * b == -(p * b)) by (nonlinear_arith);
        -p
    }
}

/// The calendar date of Julian day number `jd`: year, month and day. The
/// day numbers taken are those for which `4 * (jd + 68569)` fits in an
/// `i64`.
#[verifier::rlimit(40)]
pub fn julian_to_ymd(jd: i64) -> (ymd: (i32, u32, u32))
    requires
        -0x2000_0000_0000_0000 <= jd + 68569 <= 0x1fff_ffff_ffff_ffff,
    ensures
        ymd == julian_ymd(jd as int),
{
    let l1: i128 = jd as i128 + 68569;
    let n = div0(4 * l1, 146097);
    let t1 = div0(146097 * n + 3, 4);
    let l2 = l1 - t1;
    let i = div0(4000 * (l2 + 1), 1461001);
    let t2 = div0(1461 * i, 4);
    let l3 = l2 - t2 + 31;
    let j = div0(80 * l3, 2447);
    let t3 = div0(2447 * j, 80);
    let day = l3 - t3;
    let l4 = div0(j, 11);
    let month = j + 2 - 12 * l4;
    let year = 100 * (n - 49) + i + l4;
    (year as i32, month as u32, day as u32)
}

/// `v` with at least `width` characters, zero-padded after the sign.
pub fn zero_padded_chars(v: i128, width: usize) -> (out: Vec<char>)
    ensures
        out@ == zero_padded(v as int, width as nat),
{
    let mag: u128 = if v >= 0 {
        v as u128
    } else if v == i128::MIN {
        0x8000_0000_0000_0000_0000_0000_0000_0000u128
    } else {
        (-v) as u128
    };
    let digits = decimal_chars(mag);
    let mut out: Vec<char> = Vec::new();
    let sign_len: usize = if v < 0 {
        out.push('-');
        1
    } else {
        0
    };
    let pad: usize = if width > sign_len && width - sign_len > digits.len() {
        width - sign_len - digits.len()
    } else {
        0
    };
    let ghost sign = out@;
    let mut k: usize = 0;
    while k < pad
        invariant
            k <= pad,
            out@ == sign + Seq::new(k as nat, |_i: int| '0'),
        decreases pad - k,
    {
        out.push('0');
        proof {
            assert(Seq::new((k + 1) as nat, |_i: int| '0') =~= Seq::new(k as nat, |_i: int| '0').push('0'));
        }
        k = k + 1;
    }
    extend_chars(&mut out, &digits);
    proof {
        let zs = Seq::new(pad as nat, |_i: int| '0');
        if v < 0 {
            assert(sign =~= seq!['-']);
        } else {
            assert(sign =~= Seq::<char>::empty());
        }
        assert(out@ =~= zero_padded(v as int, width as nat));
    }
    out
}

/// The date `days` days after 1970-01-01, as `YYYY-MM-DD`.
pub fn format_date32(days: i32) -> (s: String)
    ensures
        s@ == date_text(days),
{
    let out = date_chars(days);
    string_of(&out)
}

fn date_chars(days: i32) -> (out: Vec<char>)
    ensures
        out@ == date_text(days),
{
    let jd: i64 = days as i64 + 2440588;
    let (y, m, d) = julian_to_ymd(jd);
    let mut out = zero_padded_chars(y as i128, 4);
    out.push('-');
    let mc = zero_padded_chars(m as i128, 2);
    extend_chars(&mut out, &mc);
    out.push('-');
    let dc = zero_padded_chars(d as i128, 2);
    extend_chars(&mut out, &dc);
    proof {
        assert(out@ =~= date_text(days));
    }
    out
}

/// The date of a count of milliseconds since 1970-01-01.
pub fn format_date64(ms: i64) -> (s: String)
    ensures
        s@ == date64_text(ms),
{
    let days: i64 = ms / 86_400_000;
    proof {
        if ms >= 0 {
            assert(days == (ms as int) / 86_400_000);
        } else {
            assert(days == -((-(ms as int)) / 86_400_000));
        }
    }
    format_date32(days as i32)
}

/// Flooring division and its non-negative remainder.
fn floor_div_rem(v: i64, d: i64) -> (qr: (i64, i64))
    requires
        2 <= d <= 0x1_0000_0000_0000,
    ensures
        qr.0 == (v as int) / (d as int),
        qr.1 == (v as int) % (d as int),
{
    if v >= 0 {
        let q = v / d;
        let r = v % d;
        (q, r)
    } else {
        let a: i64 = -(v + 1);
        let qa = a / d;
        let ra = a % d;
        proof {
            assert(a == qa * d + ra && 0 <= ra < d && 0 <= qa && qa * 2 <= a) by (nonlinear_arith)
                requires
                    a >= 0,
                    d >= 2,
                    qa == a / d,
                    ra == a % d,
            ;
            assert(v == (-(qa + 1)) * d + (d - 1 - ra)) by (nonlinear_arith)
                requires
                    v == -(a + 1),
                    a == qa * d + ra,
            ;
            vstd::arithmetic::div_mod::lemma_fundamental_div_mod_converse(
                v as int,
                d as int,
                -(qa + 1),
                d - 1 - ra,
            );
        }
        (-(qa + 1), d - 1 - ra)
    }
}

/// `timestamp_text` of `v` for a unit of `1 / per_sec` seconds.
#[verifier::spinoff_prover]
#[verifier::rlimit(30)]
fn timestamp_chars(v: i64, per_sec: i64, frac_width: usize) -> (out: Vec<char>)
    requires
        per_sec == 1 || per_sec == 1000 || per_sec == 1_000_000 || per_sec == 1_000_000_000,
    ensures
        out@ == timestamp_text(v as int, per_sec as int, frac_width as nat),
{
    let per_day: i64 = 86400 * per_sec;
    let (days, rem) = floor_div_rem(v, per_day);
    let per_hour: i64 = 3600 * per_sec;
    let per_minute: i64 = 60 * per_sec;
    let h = rem / per_hour;
    let m = (rem % per_hour) / per_minute;
    let s = (rem % per_minute) / per_sec;
    let frac = rem % per_sec;
    let mut out = date_chars(days as i32);
    out.push(' ');
    let hc = zero_padded_chars(h as i128, 2);
    extend_chars(&mut out, &hc);
    out.push(':');
    let mc = zero_padded_chars(m as i128, 2);
    extend_chars(&mut out, &mc);
    out.push(':');
    let sc = zero_padded_chars(s as i128, 2);
    extend_chars(&mut out, &sc);
    if frac_width > 0 {
        out.push('.');
        let fc = zero_padded_chars(frac as i128, frac_width);
        extend_chars(&mut out, &fc);
    }
    proof {
        assert(out@ =~= timestamp_text(v as int, per_sec as int, frac_width as nat));
    }
    out
}

/// A timestamp in seconds since the epoch, as `YYYY-MM-DD HH:MM:SS`.
pub fn format_timestamp_s(s: i64) -> (t: String)
    ensures
        t@ == timestamp_text(s as int, 1, 0),
{
    let out = timestamp_chars(s, 1, 0);
    string_of(&out)
}

/// A timestamp in milliseconds, as `YYYY-MM-DD HH:MM:SS.mmm`.
pub fn format_timestamp_ms(ms: i64) -> (t: String)
    ensures
        t@ == timestamp_text(ms as int, 1000, 3),
{
    let out = timestamp_chars(ms, 1000, 3);
    string_of(&out)
}

/// A timestamp in microseconds, as `YYYY-MM-DD HH:MM:SS.uuuuuu`.
pub fn format_timestamp_us(us: i64) -> (t: String)
    ensures
        t@ == timestamp_text(us as int, 1_000_000, 6),
{
    let out = timestamp_chars(us, 1_000_000, 6);
    string_of(&out)
}

/// A timestamp in nanoseconds, as `YYYY-MM-DD HH:MM:SS.nnnnnnnnn`.
pub fn format_timestamp_ns(ns: i64) -> (t: String)
    ensures
        t@ == timestamp_text(ns as int, 1_000_000_000, 9),
{
    let out = timestamp_chars(ns, 1_000_000_000, 9);
    string_of(&out)
}

} // verus!
