//! Proleptic-Gregorian calendar dates with verified day arithmetic.
//!
//! A date is a plain (year, month, day) triple; `day_number` maps a valid
//! date to the count of days since year 0, January 1, and every comparison
//! and arithmetic contract is stated over that mapping.

use vstd::prelude::*;

verus! {

/// Largest year the library represents; later dates degrade to "absent".
pub const MAX_YEAR: u32 = 9999;

#[derive(Clone, Copy, PartialEq, Eq, Structural, Debug)]
pub struct Date {
    pub year: u32,
    pub month: u32,
    pub day: u32,
}

/// Divisible by 4 and not by 100, or divisible by 400.
pub open spec fn is_leap_year_s(y: int) -> bool {
    (y % 4 == 0 && y % 100 != 0) || y % 400 == 0
}

pub open spec fn days_in_month_s(y: int, m: int) -> int {
    if m == 1 || m == 3 || m == 5 || m == 7 || m == 8 || m == 10 || m == 12 {
        31
    } else if m == 4 || m == 6 || m == 9 || m == 11 {
        30
    } else if m == 2 {
        if is_leap_year_s(y) {
            29
        } else {
            28
        }
    } else {
        30
    }
}

pub open spec fn days_in_year_s(y: int) -> int {
    if is_leap_year_s(y) {
        366
    } else {
        365
    }
}

/// Days in the months of year `y` that precede month `m` (1 <= m <= 13).
pub open spec fn days_before_month(y: int, m: int) -> int {
    let f: int = if is_leap_year_s(y) {
        1
    } else {
        0
    };
    if m <= 1 {
        0
    } else if m == 2 {
        31
    } else if m == 3 {
        59 + f
    } else if m == 4 {
        90 + f
    } else if m == 5 {
        120 + f
    } else if m == 6 {
        151 + f
    } else if m == 7 {
        181 + f
    } else if m == 8 {
        212 + f
    } else if m == 9 {
        243 + f
    } else if m == 10 {
        273 + f
    } else if m == 11 {
        304 + f
    } else if m == 12 {
        334 + f
    } else {
        365 + f
    }
}

/// Days in the years 0 .. y-1.
pub open spec fn days_before_year(y: nat) -> int
    decreases y,
{
    if y == 0 {
        0
    } else {
        days_before_year((y - 1) as nat) + days_in_year_s(y - 1)
    }
}

pub open spec fn date_valid(d: Date) -> bool {
    &&& d.year <= MAX_YEAR
    &&& 1 <= d.month <= 12
    &&& 1 <= d.day <= days_in_month_s(d.year as int, d.month as int)
}

/// Days since year 0, January 1 (that day itself is number 0).
pub open spec fn day_number(d: Date) -> int {
    days_before_year(d.year as nat) + days_before_month(d.year as int, d.month as int) + d.day - 1
}

/// The day number of the latest representable date.
pub open spec fn max_day_number() -> int {
    day_number(Date { year: MAX_YEAR, month: 12, day: 31 })
}

/// Lexicographic order on the (year, month, day) triple.
pub open spec fn date_lex_lt(a: Date, b: Date) -> bool {
    ||| a.year < b.year
    ||| (a.year == b.year && a.month < b.month)
    ||| (a.year == b.year && a.month == b.month && a.day < b.day)
}

proof fn lemma_days_before_month_in_year(y: int, m: int)
    requires
        1 <= m <= 12,
    ensures
        days_before_month(y, m) + days_in_month_s(y, m) == days_before_month(y, m + 1),
        days_before_month(y, m + 1) <= days_in_year_s(y),
{
}

/// A valid date's day number lies within its year's slice of the timeline.
proof fn lemma_day_number_in_year(d: Date)
    requires
        date_valid(d),
    ensures
        days_before_year(d.year as nat) <= day_number(d),
        day_number(d) < days_before_year((d.year + 1) as nat),
{
    lemma_days_before_month_in_year(d.year as int, d.month as int);
    assert(days_before_year((d.year + 1) as nat) == days_before_year(d.year as nat)
        + days_in_year_s(d.year as int));
}

proof fn lemma_days_before_year_mono(y1: nat, y2: nat)
    requires
        y1 <= y2,
    ensures
        days_before_year(y1) + 365 * (y2 - y1) <= days_before_year(y2),
    decreases y2 - y1,
{
    if y1 < y2 {
        lemma_days_before_year_mono(y1, (y2 - 1) as nat);
    }
}

/// For valid dates, the lexicographic order and the day-number order agree.
pub proof fn lemma_date_order(a: Date, b: Date)
    requires
        date_valid(a),
        date_valid(b),
    ensures
        date_lex_lt(a, b) <==> day_number(a) < day_number(b),
        a == b <==> day_number(a) == day_number(b),
{
    lemma_day_number_in_year(a);
    lemma_day_number_in_year(b);
    if a.year < b.year {
        lemma_days_before_year_mono((a.year + 1) as nat, b.year as nat);
    } else if b.year < a.year {
        lemma_days_before_year_mono((b.year + 1) as nat, a.year as nat);
    } else {
        if a.month < b.month {
            lemma_days_before_month_mono(a.year as int, a.month as int, b.month as int);
        } else if b.month < a.month {
            lemma_days_before_month_mono(a.year as int, b.month as int, a.month as int);
        }
    }
}

proof fn lemma_days_before_month_mono(y: int, m1: int, m2: int)
    requires
        1 <= m1 < m2 <= 12,
    ensures
        days_before_month(y, m1) + days_in_month_s(y, m1) <= days_before_month(y, m2),
{
}

/// The valid date with the given day number.
pub open spec fn date_of_day_number(n: int) -> Date {
    choose|d: Date| date_valid(d) && day_number(d) == n
}

proof fn lemma_exists_date_of_day_number(n: int)
    requires
        0 <= n <= max_day_number(),
    ensures
        exists|d: Date| date_valid(d) && day_number(d) == n,
    decreases n,
{
    if n == 0 {
        assert(date_valid(Date { year: 0, month: 1, day: 1 }));
        assert(day_number(Date { year: 0, month: 1, day: 1 }) == 0);
    } else {
        lemma_exists_date_of_day_number(n - 1);
        let d = choose|d: Date| date_valid(d) && day_number(d) == n - 1;
        if d.day < days_in_month_s(d.year as int, d.month as int) {
            let e = Date { year: d.year, month: d.month, day: (d.day + 1) as u32 };
            assert(date_valid(e) && day_number(e) == n);
        } else if d.month < 12 {
            let e = Date { year: d.year, month: (d.month + 1) as u32, day: 1 };
            assert(days_before_month(d.year as int, d.month + 1) == days_before_month(
                d.year as int,
                d.month as int,
            ) + days_in_month_s(d.year as int, d.month as int)) by {
                lemma_days_before_month_in_year(d.year as int, d.month as int);
            }
            assert(date_valid(e) && day_number(e) == n);
        } else {
            if d.year == MAX_YEAR {
                lemma_date_order(d, Date { year: MAX_YEAR, month: 12, day: 31 });
                assert(false);
            }
            let e = Date { year: (d.year + 1) as u32, month: 1, day: 1 };
            assert(days_before_year((d.year + 1) as nat) == days_before_year(d.year as nat)
                + days_in_year_s(d.year as int));
            assert(date_valid(e) && day_number(e) == n);
        }
    }
}

/// On the representable range, `date_of_day_number` is the two-sided inverse
/// of `day_number`.
pub proof fn lemma_date_of_day_number(n: int)
    requires
        0 <= n <= max_day_number(),
    ensures
        date_valid(date_of_day_number(n)),
        day_number(date_of_day_number(n)) == n,
        forall|d: Date| date_valid(d) && day_number(d) == n ==> d == date_of_day_number(n),
    decreases n,
{
    lemma_exists_date_of_day_number(n);
    assert forall|d: Date| date_valid(d) && day_number(d) == n implies d == date_of_day_number(
        n,
    ) by {
        lemma_date_order(d, date_of_day_number(n));
    }
}

/// Decides the leap-year rule.
pub fn is_leap_year(year: i32) -> (r: bool)
    ensures
        r == is_leap_year_s(year as int),
{
    (year % 4 == 0 && year % 100 != 0) || year % 400 == 0
}

/// The length of a month in the given year.
pub fn days_in_month(year: i32, month: u32) -> (r: u32)
    ensures
        r == days_in_month_s(year as int, month as int),
{
    match month {
        1 | 3 | 5 | 7 | 8 | 10 | 12 => 31,
        4 | 6 | 9 | 11 => 30,
        2 => {
            if is_leap_year(year) {
                29
            } else {
                28
            }
        },
        _ => 30,
    }
}

impl Date {
    /// Builds a date, absent when the triple is not a calendar day in range.
    pub fn new(year: u32, month: u32, day: u32) -> (r: Option<Date>)
        ensures
            r is Some <==> date_valid(Date { year, month, day }),
            r matches Some(d) ==> d == (Date { year, month, day }),
    {
        let d = Date { year, month, day };
        if year <= MAX_YEAR && 1 <= month && month <= 12 && 1 <= day && day <= days_in_month(
            year as i32,
            month,
        ) {
            Some(d)
        } else {
            None
        }
    }
}

proof fn lemma_days_before_year_bound(y: nat)
    ensures
        days_before_year(y) <= 366 * y,
    decreases y,
{
    if y > 0 {
        lemma_days_before_year_bound((y - 1) as nat);
    }
}

/// Computes the day number of a valid date.
pub fn day_number_of(d: &Date) -> (n: u32)
    requires
        date_valid(*d),
    ensures
        n == day_number(*d),
{
    proof {
        lemma_days_before_year_bound(d.year as nat);
    }
    let mut y: u32 = 0;
    let mut acc: u32 = 0;
    while y < d.year
        invariant
            y <= d.year,
            d.year <= MAX_YEAR,
            acc == days_before_year(y as nat),
            acc <= 366 * y,
        decreases d.year - y,
    {
        proof {
            lemma_days_before_year_bound((y + 1) as nat);
        }
        if is_leap_year(y as i32) {
            acc = acc + 366;
        } else {
            acc = acc + 365;
        }
        y = y + 1;
    }
    let before_month: u32 = month_offset(d.year, d.month);
    acc + before_month + d.day - 1
}

/// Days in the months of `year` before `month`.
fn month_offset(year: u32, month: u32) -> (r: u32)
    requires
        year <= MAX_YEAR,
        1 <= month <= 12,
    ensures
        r == days_before_month(year as int, month as int),
{
    let f: u32 = if is_leap_year(year as i32) {
        1
    } else {
        0
    };
    match month {
        1 => 0,
        2 => 31,
        3 => 59 + f,
        4 => 90 + f,
        5 => 120 + f,
        6 => 151 + f,
        7 => 181 + f,
        8 => 212 + f,
        9 => 243 + f,
        10 => 273 + f,
        11 => 304 + f,
        _ => 334 + f,
    }
}

/// The inverse of `day_number_of`, defined on the representable range.
pub fn date_from_day_number(n: u32) -> (r: Date)
    requires
        n <= max_day_number(),
    ensures
        date_valid(r),
        day_number(r) == n,
        r == date_of_day_number(n as int),
{
    proof {
        lemma_date_of_day_number(n as int);
    }
    let mut y: u32 = 0;
    let mut acc: u32 = 0;
    loop
        invariant
            y <= MAX_YEAR,
            acc == days_before_year(y as nat),
            acc <= n <= max_day_number(),
        ensures
            y <= MAX_YEAR,
            acc == days_before_year(y as nat),
            acc <= n,
            n - acc < days_in_year_s(y as int),
        decreases MAX_YEAR - y,
    {
        let diy: u32 = if is_leap_year(y as i32) {
            366
        } else {
            365
        };
        proof {
            lemma_days_before_year_bound((y + 1) as nat);
        }
        if n - acc < diy {
            break ;
        }
        if y == MAX_YEAR {
            proof {
                assert(max_day_number() < days_before_year((MAX_YEAR + 1) as nat)) by {
                    lemma_day_number_in_year(Date { year: MAX_YEAR, month: 12, day: 31 });
                }
            }
        }
        acc = acc + diy;
        y = y + 1;
    }
    let mut m: u32 = 1;
    let mut rem: u32 = n - acc;
    while rem >= days_in_month(y as i32, m)
        invariant
            1 <= m <= 12,
            y <= MAX_YEAR,
            days_before_month(y as int, m as int) + rem == n - days_before_year(y as nat),
            n - days_before_year(y as nat) < days_in_year_s(y as int),
        decreases 12 - m,
    {
        proof {
            lemma_days_before_month_in_year(y as int, m as int);
            if m == 12 {
                assert(days_before_month(y as int, 13) == days_in_year_s(y as int));
            }
        }
        rem = rem - days_in_month(y as i32, m);
        m = m + 1;
    }
    Date { year: y, month: m, day: rem + 1 }
}

/// The day numbers of representable dates are small.
pub proof fn lemma_max_day_number_bound()
    ensures
        0 <= max_day_number() < 4000000,
{
    lemma_days_before_year_bound(MAX_YEAR as nat);
    lemma_days_before_year_mono(0, MAX_YEAR as nat);
}

/// A valid date's day number lies in the representable range.
pub proof fn lemma_day_number_range(d: Date)
    requires
        date_valid(d),
    ensures
        0 <= day_number(d) <= max_day_number(),
{
    lemma_days_before_year_mono(0, d.year as nat);
    lemma_date_order(d, Date { year: MAX_YEAR, month: 12, day: 31 });
}

/// Signed distance in days: `a` minus `b`.
pub fn days_between(a: &Date, b: &Date) -> (r: i64)
    requires
        date_valid(*a),
        date_valid(*b),
    ensures
        r == day_number(*a) - day_number(*b),
{
    let na = day_number_of(a);
    let nb = day_number_of(b);
    (na as i64) - (nb as i64)
}

/// `a` on or before `b`, in day-number order.
pub fn date_le(a: &Date, b: &Date) -> (r: bool)
    requires
        date_valid(*a),
        date_valid(*b),
    ensures
        r == (day_number(*a) <= day_number(*b)),
{
    proof {
        lemma_date_order(*a, *b);
    }
    if a.year != b.year {
        a.year < b.year
    } else if a.month != b.month {
        a.month < b.month
    } else {
        a.day <= b.day
    }
}

/// `a` strictly before `b`, in day-number order.
pub fn date_lt(a: &Date, b: &Date) -> (r: bool)
    requires
        date_valid(*a),
        date_valid(*b),
    ensures
        r == (day_number(*a) < day_number(*b)),
{
    proof {
        lemma_date_order(*a, *b);
    }
    if a.year != b.year {
        a.year < b.year
    } else if a.month != b.month {
        a.month < b.month
    } else {
        a.day < b.day
    }
}

/// The date `n` days after `d`, absent past the representable range.
pub fn add_days(d: &Date, n: u32) -> (r: Option<Date>)
    requires
        date_valid(*d),
    ensures
        r is Some <==> day_number(*d) + n <= max_day_number(),
        r matches Some(e) ==> date_valid(e) && day_number(e) == day_number(*d) + n && e
            == date_of_day_number(day_number(*d) + n),
{
    proof {
        lemma_date_order(*d, Date { year: MAX_YEAR, month: 12, day: 31 });
    }
    let nd = day_number_of(d);
    let maxd = day_number_of(&Date { year: MAX_YEAR, month: 12, day: 31 });
    if n <= maxd - nd {
        Some(date_from_day_number(nd + n))
    } else {
        None
    }
}

/// The date `n` days before `d`, absent before year 0.
pub fn sub_days(d: &Date, n: u32) -> (r: Option<Date>)
    requires
        date_valid(*d),
    ensures
        r is Some <==> day_number(*d) - n >= 0,
        r matches Some(e) ==> date_valid(e) && day_number(e) == day_number(*d) - n && e
            == date_of_day_number(day_number(*d) - n),
{
    proof {
        lemma_date_order(*d, Date { year: MAX_YEAR, month: 12, day: 31 });
    }
    let nd = day_number_of(d);
    if n <= nd {
        Some(date_from_day_number(nd - n))
    } else {
        None
    }
}

/// Calendar-aware month addition: the month index advances by `n` and the
/// day of month is clamped to the target month's length.
pub open spec fn add_months_spec(d: Date, n: int) -> Option<Date> {
    let total = d.year * 12 + (d.month - 1) + n;
    let ty = total / 12;
    let tm = total % 12 + 1;
    if ty > MAX_YEAR {
        None
    } else {
        Some(
            Date {
                year: ty as u32,
                month: tm as u32,
                day: if d.day <= days_in_month_s(ty, tm) {
                    d.day
                } else {
                    days_in_month_s(ty, tm) as u32
                },
            },
        )
    }
}

/// Calendar-aware year addition; February 29 demotes to February 28 when the
/// target year is not a leap year.
pub open spec fn add_years_spec(d: Date, n: int) -> Option<Date> {
    let ty = d.year + n;
    if ty > MAX_YEAR {
        None
    } else {
        Some(
            Date {
                year: ty as u32,
                month: d.month,
                day: if d.day <= days_in_month_s(ty, d.month as int) {
                    d.day
                } else {
                    days_in_month_s(ty, d.month as int) as u32
                },
            },
        )
    }
}

/// Adds whole months, clamping the day of month.
pub fn add_months(d: &Date, n: u32) -> (r: Option<Date>)
    requires
        date_valid(*d),
    ensures
        r == add_months_spec(*d, n as int),
        r matches Some(e) ==> date_valid(e),
{
    let total: u64 = (d.year as u64) * 12 + ((d.month - 1) as u64) + (n as u64);
    let ty: u64 = total / 12;
    let tm: u32 = (total % 12) as u32 + 1;
    if ty > MAX_YEAR as u64 {
        None
    } else {
        let dim = days_in_month(ty as i32, tm);
        let day = if d.day <= dim {
            d.day
        } else {
            dim
        };
        Some(Date { year: ty as u32, month: tm, day })
    }
}

/// Adds whole years, demoting a leap day when needed.
pub fn add_years(d: &Date, n: u32) -> (r: Option<Date>)
    requires
        date_valid(*d),
    ensures
        r == add_years_spec(*d, n as int),
        r matches Some(e) ==> date_valid(e),
{
    let ty: u64 = (d.year as u64) + (n as u64);
    if ty > MAX_YEAR as u64 {
        None
    } else {
        let dim = days_in_month(ty as i32, d.month);
        let day = if d.day <= dim {
            d.day
        } else {
            dim
        };
        Some(Date { year: ty as u32, month: d.month, day })
    }
}

/// Whole-month distance from `a` to `b`, ignoring the day of month.
pub open spec fn months_between_spec(a: Date, b: Date) -> int {
    (b.year - a.year) * 12 + (b.month - a.month)
}

/// Whole-month distance from `a` to `b`.
pub fn months_between(a: &Date, b: &Date) -> (r: i64)
    requires
        date_valid(*a),
        date_valid(*b),
    ensures
        r == months_between_spec(*a, *b),
{
    ((b.year as i64) - (a.year as i64)) * 12 + ((b.month as i64) - (a.month as i64))
}

} // verus!
